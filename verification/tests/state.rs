use grass::state::{GistRecord, SyncState, STATE_FILE};
use serde::de::{Deserialize, Deserializer, Error, IgnoredAny, MapAccess, SeqAccess, Visitor};
use std::fmt;

fn record(updated_at: &str, folder: &str, files: &[&str]) -> GistRecord {
    GistRecord {
        updated_at: updated_at.to_string(),
        folder: folder.to_string(),
        files: files.iter().map(|f| f.to_string()).collect(),
    }
}

#[test]
fn load_missing_is_empty() {
    let state = SyncState::load(None);
    assert!(state.gists.is_empty());
}

#[test]
fn save_then_load_roundtrip() {
    let mut state = SyncState::default();
    state.gists.insert(
        "abc".to_string(),
        GistRecord {
            updated_at: "2020-01-01T00:00:00Z".to_string(),
            folder: "notes-abc".to_string(),
            files: vec!["a.md".to_string(), "b.txt".to_string()],
        },
    );
    let write = state.save("dir");
    let loaded = SyncState::load(Some(&write.bytes));
    assert_eq!(state, loaded);
}

#[test]
fn corrupt_file_is_empty() {
    let state = SyncState::load(Some(b"{not valid json"));
    assert!(state.gists.is_empty());
}

#[test]
fn state_is_written_atomically() {
    let write = SyncState::default().save("some/dir");
    assert_eq!(write.path, "some/dir/.grass-state.json");
    assert_eq!(write.temp_path, "some/dir/.grass-state.json.tmp");
    assert_eq!(write.path, SyncState::path("some/dir"));
    assert_eq!(STATE_FILE, ".grass-state.json");
}

#[test]
fn state_file_has_this_form() {
    let mut state = SyncState::default();
    state.insert("b".to_string(), record("t2", "two-b", &[]));
    state.insert("a".to_string(), record("t1", "one-a", &["x.md", "quote\".txt"]));
    let text = String::from_utf8(state.save(".").bytes).unwrap();
    assert_eq!(
        text,
        r#"{
  "gists": {
    "a": {
      "updated_at": "t1",
      "folder": "one-a",
      "files": [
        "x.md",
        "quote\".txt"
      ]
    },
    "b": {
      "updated_at": "t2",
      "folder": "two-b",
      "files": []
    }
  }
}"#
    );
    assert_eq!(SyncState::load(Some(text.as_bytes())), state);
}

#[test]
fn state_with_any_text_is_read_back() {
    let mut state = SyncState::default();
    state.insert(
        "\u{0}\n\"\\é🎉".to_string(),
        record("\u{1f}\u{7f}", "/\u{2028}", &["", "\t"]),
    );
    assert_eq!(SyncState::load(Some(&state.save("").bytes)), state);
}

#[test]
fn states_of_another_form_are_empty() {
    for bad in [
        "null",
        "3",
        "\"x\"",
        "[[]]",
        "[{},{}]",
        r#"{"gists":null}"#,
        r#"{"gists":{"a":null}}"#,
        r#"{"gists":{"a":{"folder":"f"}}}"#,
        r#"{"gists":{"a":{"updated_at":"t","folder":"f","files":null}}}"#,
        r#"{"gists":{"a":{"updated_at":"t","folder":"f","files":[1]}}}"#,
        r#"{"gists":{"a":{"updated_at":"t","folder":"f"},"b":3}}"#,
        r#"{"gists":{}} trailing"#,
    ] {
        assert!(SyncState::load(Some(bad.as_bytes())).gists.is_empty(), "{bad}");
    }
}

#[test]
fn what_may_be_left_out_of_a_state() {
    assert_eq!(SyncState::load(Some(b"{}")), SyncState::default());
    assert_eq!(SyncState::load(Some(b"[]")), SyncState::default());
    let state = SyncState::load(Some(
        br#"{"version":1,"gists":{"a":{"folder":"f","updated_at":"t","extra":[]}}}"#,
    ));
    assert_eq!(state.get("a"), Some(&record("t", "f", &[])));
    assert_eq!(state.get("b"), None);
}

#[test]
fn records_are_read_from_text() {
    assert_eq!(GistRecord::read(br#"["t","f",["x"]]"#), Some(record("t", "f", &["x"])));
    assert_eq!(GistRecord::read(br#" [ "t" , "f" ] "#), Some(record("t", "f", &[])));
    assert_eq!(GistRecord::read(br#"["t"]"#), None);
    assert_eq!(GistRecord::read(br#"["t","f",[],1]"#), None);
    assert_eq!(GistRecord::read(br#"["t","f",]"#), None);
    assert!(SyncState::read(b"null").is_none());
}

#[test]
fn repeated_fields_are_corrupt() {
    for bad in [
        r#"{"gists":{},"gists":{}}"#,
        r#"{"gists":{"a":{"updated_at":"t","folder":"f","folder":"f"}}}"#,
        r#"{"gists":{"a":{"updated_at":"t","folder":"f","files":[],"\u0066iles":[]}}}"#,
    ] {
        assert!(SyncState::read(bad.as_bytes()).is_none(), "{bad}");
    }
    // Ids and members that are not asked for may be repeated.
    let state = SyncState::load(Some(
        br#"{"x":1,"x":2,"gists":{"a":["t1","f"],"a":["t2","f"]}}"#,
    ));
    assert_eq!(state.gists.len(), 1);
    assert_eq!(state.get("a"), Some(&record("t2", "f", &[])));
}

#[test]
fn other_members_need_only_be_json() {
    let deep = format!("{}{}", "[".repeat(1000), "]".repeat(1000));
    for other in ["1e999", "-1", r#""\ud800""#, deep.as_str(), r#"{"a":{"a":[]},"a":1}"#] {
        let text = format!(
            r#"{{"x":{other},"gists":{{"a":{{"y":{other},"updated_at":"t","folder":"f"}}}}}}"#
        );
        let state = SyncState::load(Some(text.as_bytes()));
        assert_eq!(state.get("a"), Some(&record("t", "f", &[])), "{other}");
    }
    let state = SyncState::load(Some(b"{\"x\":\"\xff\",\"gists\":{\"a\":[\"t\",\"f\"]}}"));
    assert_eq!(state.gists.len(), 1);
    for bad in ["", "01", "[1,]", "tru", "\"a", "{1:2}", "{\"a\"}", "1 2", "\"\t\""] {
        let text = format!(r#"{{"x":{bad},"gists":{{"a":["t","f"]}}}}"#);
        assert!(SyncState::read(text.as_bytes()).is_none(), "{bad}");
    }
}

#[test]
fn outline_of_a_state_must_be_json() {
    let ok = |text: &str| SyncState::read(text.as_bytes()).is_some();
    assert!(ok(" \t\r\n{ \"gists\" : { \"a\" : [ \"t\" , \"f\" ] } } \n"));
    assert!(ok("[ { } ]"));
    assert!(ok("{ }"));
    for bad in [
        "", "{", "}", "{,}", "{\"gists\":{},}", "{\"gists\":{}", "{\"gists\" {}}", "{gists:{}}",
        "{\"gists\":{}}}", "{\"gists\":{};}", "[{},]", "[", "[,]", "{} {}", "\u{a0}{}",
        "{\"gists\":{} \"x\":1}", "{1:{}}", "{\"gists\"::{}}",
    ] {
        assert!(!ok(bad), "{bad}");
    }
}

#[test]
fn state_forgets_what_is_removed() {
    let mut state = SyncState::default();
    state.insert("a".to_string(), record("t1", "f", &[]));
    state.insert("a".to_string(), record("t2", "f", &[]));
    assert_eq!(state.get("a").unwrap().updated_at, "t2");
    state.remove("b");
    assert_eq!(state.gists.len(), 1);
    state.remove("a");
    assert_eq!(state, SyncState::default());
}

/// A record as `serde` reads it, with one visitor for the whole structure.
struct Visited(GistRecord);

struct RecordVisitor;

impl<'de> Deserialize<'de> for Visited {
    fn deserialize<D: Deserializer<'de>>(deserializer: D) -> Result<Self, D::Error> {
        let names = &["updated_at", "folder", "files"];
        deserializer.deserialize_struct("GistRecord", names, RecordVisitor).map(Visited)
    }
}

impl<'de> Visitor<'de> for RecordVisitor {
    type Value = GistRecord;

    fn expecting(&self, f: &mut fmt::Formatter) -> fmt::Result {
        f.write_str("a record")
    }

    fn visit_seq<A: SeqAccess<'de>>(self, mut seq: A) -> Result<GistRecord, A::Error> {
        let missing = || A::Error::custom("missing");
        Ok(GistRecord {
            updated_at: seq.next_element()?.ok_or_else(missing)?,
            folder: seq.next_element()?.ok_or_else(missing)?,
            files: seq.next_element()?.unwrap_or_default(),
        })
    }

    fn visit_map<A: MapAccess<'de>>(self, mut map: A) -> Result<GistRecord, A::Error> {
        let (mut updated_at, mut folder, mut files) = (None, None, None);
        while let Some(key) = map.next_key::<String>()? {
            let repeated = match key.as_str() {
                "updated_at" => updated_at.replace(map.next_value()?).is_some(),
                "folder" => folder.replace(map.next_value()?).is_some(),
                "files" => files.replace(map.next_value()?).is_some(),
                _ => {
                    map.next_value::<IgnoredAny>()?;
                    false
                }
            };
            if repeated {
                return Err(A::Error::custom("repeated"));
            }
        }
        let missing = || A::Error::custom("missing");
        Ok(GistRecord {
            updated_at: updated_at.ok_or_else(missing)?,
            folder: folder.ok_or_else(missing)?,
            files: files.unwrap_or_default(),
        })
    }
}

/// Compares the two ways to read a record, and returns whether it is one.
fn read_both_ways(text: &str) -> bool {
    let visited = serde_json::from_slice::<Visited>(text.as_bytes()).ok().map(|v| v.0);
    assert_eq!(GistRecord::read(text.as_bytes()), visited, "{text}");
    visited.is_some()
}

#[test]
fn records_are_read_as_a_visitor_reads_them() {
    let by_name = [
        "{", "\"updated_at\"", ":", "\"t\"", ",", "\"folder\"", ":", "\"f\"", ",", "\"files\"", ":",
        "[", "\"x\"", "]", ",", "\"other\"", ":", "1e999", "}",
    ];
    let by_position = ["[", "\"t\"", ",", "\"f\"", ",", "[", "\"x\"", "]", "]"];
    let tokens = [
        "", " ", "{", "}", "[", "]", ",", ":", "\"t\"", "\"folder\"", "\"\\u0066iles\"",
        "\"\\ud800\"", "null", "-0", "1", "01", "tru", "\"", "{}", "[]", "\n", "\u{a0}",
    ];
    let mut read = 0;
    for base in [&by_name[..], &by_position[..]] {
        assert!(read_both_ways(&base.concat()));
        for i in 0..base.len() {
            for a in tokens {
                // One token in the place of another, or before it.
                for (skip, put) in [(1, a.to_string()), (0, a.to_string())] {
                    let mut one: Vec<String> = base.iter().map(|t| t.to_string()).collect();
                    one.splice(i..i + skip, [put]);
                    read += usize::from(read_both_ways(&one.concat()));
                    for j in i + 1..one.len() {
                        for b in tokens {
                            let kept = std::mem::replace(&mut one[j], b.to_string());
                            read += usize::from(read_both_ways(&one.concat()));
                            one[j] = kept;
                        }
                    }
                }
            }
        }
    }
    assert!(read > 100);
}
