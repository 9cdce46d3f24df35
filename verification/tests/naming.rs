use grass::model::{Gist, GistFile};
use grass::naming::{folder_name, slugify, MAX_SLUG_LEN};
use grass::strmap::StrMap;

fn gist(id: &str, description: Option<&str>, filenames: &[&str]) -> Gist {
    let mut files = StrMap::new();
    for name in filenames {
        files.insert(
            name.to_string(),
            GistFile {
                filename: name.to_string(),
                raw_url: Some(format!("https://example/{name}")),
                size: 0,
                content_type: None,
                language: None,
            },
        );
    }
    Gist {
        id: id.to_string(),
        description: description.map(str::to_string),
        public: true,
        created_at: "2020-01-01T00:00:00Z".to_string(),
        updated_at: "2020-01-01T00:00:00Z".to_string(),
        html_url: None,
        files,
    }
}

#[test]
fn slugify_basic() {
    assert_eq!(slugify("Hello, World!"), "hello-world");
    assert_eq!(slugify("  spaced   out  "), "spaced-out");
    assert_eq!(slugify("Already-slugified"), "already-slugified");
    assert_eq!(slugify("multiple___separators"), "multiple-separators");
}

#[test]
fn slugify_empty_and_symbols() {
    assert_eq!(slugify(""), "");
    assert_eq!(slugify("!!!"), "");
    assert_eq!(slugify("---"), "");
}

#[test]
fn slugify_unicode_is_separator() {
    assert_eq!(slugify("café notes"), "caf-notes");
    assert_eq!(slugify("emoji 🎉 party"), "emoji-party");
}

#[test]
fn slugify_length_cap() {
    let long = "a".repeat(200);
    assert_eq!(slugify(&long).len(), MAX_SLUG_LEN);
    // A cut landing on a separator should not leave a trailing dash.
    let s = slugify(&format!("{}-tail", "b".repeat(49)));
    assert!(!s.ends_with('-'));
    assert!(s.len() <= MAX_SLUG_LEN);
}

#[test]
fn slugify_cuts_at_the_cap() {
    assert_eq!(
        slugify(&format!("{}-tail", "b".repeat(49))),
        "b".repeat(49)
    );
    assert_eq!(
        slugify(&format!("{} tail", "B".repeat(48))),
        format!("{}-t", "b".repeat(48))
    );
    assert_eq!(slugify(&"c".repeat(50)), "c".repeat(50));
    assert_eq!(slugify("AZ az 09"), "az-az-09");
    assert_eq!(slugify("@[`{/:"), "");
}

#[test]
fn slug_of_a_slug_is_the_slug() {
    for s in [
        "Hello, World!",
        "  spaced   out  ",
        "café notes",
        "!!!",
        "",
        "x",
        "a very long description that goes on and on well beyond the cap",
    ] {
        let once = slugify(s);
        assert_eq!(slugify(&once), once);
    }
}

#[test]
fn folder_name_from_description() {
    let g = gist("abcdef1234567890", Some("My Cool Notes"), &["notes.md"]);
    assert_eq!(folder_name(&g), "my-cool-notes-abcdef12");
}

#[test]
fn folder_name_falls_back_to_filename() {
    let g = gist("abcdef1234567890", Some(""), &["deploy.sh"]);
    assert_eq!(folder_name(&g), "deploy-abcdef12");
}

#[test]
fn folder_name_dotfile_uses_full_name() {
    let g = gist("abcdef1234567890", None, &[".bashrc"]);
    assert_eq!(folder_name(&g), "bashrc-abcdef12");
}

#[test]
fn folder_name_final_fallback() {
    let g = gist("abcdef1234567890", Some("***"), &["!!!"]);
    assert_eq!(folder_name(&g), "gist-abcdef12");
}

#[test]
fn folder_name_edge_cases() {
    assert_eq!(folder_name(&gist("", Some("Notes"), &[])), "notes");
    assert_eq!(folder_name(&gist("", None, &[])), "gist");
    assert_eq!(folder_name(&gist("abc", None, &[])), "gist-abc");
    // Only the last extension goes.
    assert_eq!(
        folder_name(&gist("abcdefgh", None, &["archive.tar.gz"])),
        "archive-tar-abcdefgh"
    );
    // The first file is the first by name.
    assert_eq!(
        folder_name(&gist("abcdefgh", None, &["z.txt", "b.txt"])),
        "b-abcdefgh"
    );
    // Characters of the id are counted, not bytes.
    assert_eq!(
        folder_name(&gist("éééééééééé", Some("x"), &[])),
        "x-éééééééé"
    );
}

#[test]
fn folders_of_different_ids_differ() {
    let a = gist("aaaaaaaa11111111", Some("Same"), &[]);
    let b = gist("aaaaaaab11111111", Some("Same"), &[]);
    assert_ne!(folder_name(&a), folder_name(&b));
}

#[test]
fn first_filename_is_the_first_by_key() {
    assert_eq!(
        gist("a", None, &["b", "a", "c"]).first_filename(),
        Some("a")
    );
    assert_eq!(gist("a", None, &[]).first_filename(), None);
}

#[test]
fn slugs_have_the_form_of_slugs() {
    for s in ["Hello, World!", "-a--b-", "ÀÉ x9", "___", "A", &"ab ".repeat(40)] {
        let slug = slugify(s);
        assert!(slug.len() <= MAX_SLUG_LEN);
        assert!(!slug.starts_with('-') && !slug.ends_with('-') && !slug.contains("--"));
        assert!(slug
            .chars()
            .all(|c| c == '-' || c.is_ascii_lowercase() || c.is_ascii_digit()));
        assert_eq!(slug.is_empty(), !s.chars().any(|c| c.is_ascii_alphanumeric()));
    }
}

#[test]
fn folders_are_single_names() {
    let folder = folder_name(&gist("abcdef12", Some("../../etc/passwd"), &["/x"]));
    assert_eq!(folder, "etc-passwd-abcdef12");
    assert!(!folder.contains('/'));
}
