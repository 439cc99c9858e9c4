use site::auth::{AdminFile, AdminFileWithData, LoginCredentials, RegisterCredentials, User};
use site::blog::{extract_title, get_post_title, to_slug, BlogPost};
use site::conf::{ClickHouseConfig, EnvString, GoogleOAuthConfig, SmtpConfig};
use site::types::Pair;

#[test]
fn account_initial_is_uppercased_first_letter() {
    let u = User {
        id: "1".to_string(),
        email: "a@b.c".to_string(),
        username: "alice".to_string(),
    };
    assert_eq!(u.initial(), 'A');
    let v = User {
        id: "2".to_string(),
        email: "x@y.z".to_string(),
        username: "Zoe".to_string(),
    };
    assert_eq!(v.initial(), 'Z');
    let w = User {
        id: "3".to_string(),
        email: "q@r.s".to_string(),
        username: String::new(),
    };
    assert_eq!(w.initial(), '?');
}

#[test]
fn oauth_is_configured_only_with_both_halves() {
    let empty = GoogleOAuthConfig::default();
    assert!(!empty.is_configured());
    let half = GoogleOAuthConfig {
        client_id: "id".to_string(),
        client_secret: String::new(),
    };
    assert!(!half.is_configured());
    let full = GoogleOAuthConfig {
        client_id: "id".to_string(),
        client_secret: "pass123".to_string(),
    };
    assert!(full.is_configured());
}

#[test]
fn config_defaults_are_the_documented_ones() {
    let ch = ClickHouseConfig::default();
    assert_eq!(ch.url, "http://localhost:8123");
    assert_eq!(ch.database, "site");
    assert_eq!(ch.user, "default");
    assert_eq!(ch.password, "");
    let smtp = SmtpConfig::default();
    assert_eq!(smtp.host, "smtp.gmail.com");
    assert_eq!(smtp.port, 587);
    assert_eq!(smtp.from_name, "My Site");
}

#[test]
fn env_string_holds_its_value() {
    let e = EnvString("resolved".to_string());
    assert_eq!(e.0, "resolved");
}

#[test]
fn credentials_hold_their_fields() {
    let login = LoginCredentials {
        email_or_username: "alice".to_string(),
        password: "pass123".to_string(),
    };
    assert_eq!(login.email_or_username, "alice");
    let reg = RegisterCredentials {
        email: "a@b.c".to_string(),
        username: "alice".to_string(),
        password: "pass123".to_string(),
    };
    assert_eq!(reg.username, "alice");
    let f = AdminFile {
        id: "1".to_string(),
        filename: "notes.txt".to_string(),
        content_type: "text/plain".to_string(),
        uploaded_by: "alice".to_string(),
        uploaded_at: "2024-01-01".to_string(),
    };
    assert_eq!(f.filename, "notes.txt");
    let d = AdminFileWithData {
        id: "1".to_string(),
        filename: "notes.txt".to_string(),
        content_type: "text/plain".to_string(),
        data: "aGVsbG8=".to_string(),
        uploaded_by: "alice".to_string(),
        uploaded_at: "2024-01-01".to_string(),
    };
    assert_eq!(d.data, "aGVsbG8=");
}

#[test]
fn slugs_lowercase_and_dash() {
    assert_eq!(to_slug("My First Post.typ"), "my-first-post");
    assert_eq!(to_slug("plain"), "plain");
    assert_eq!(to_slug("UPPER.typ"), "upper");
    assert_eq!(to_slug("nested.typ.typ"), "nested");
}

#[test]
fn duplicate_slugs_resolve_to_the_first_post() {
    let posts = vec![
        BlogPost {
            title: "First".to_string(),
            slug: "same".to_string(),
            created_ms: 0,
            html_path: "a.html".to_string(),
            text_content: String::new(),
        },
        BlogPost {
            title: "Shadowed".to_string(),
            slug: "same".to_string(),
            created_ms: 1,
            html_path: "b.html".to_string(),
            text_content: String::new(),
        },
    ];
    assert_eq!(get_post_title(&posts, "same"), Some("First".to_string()));
}

#[test]
fn titles_come_from_the_first_top_level_heading() {
    let content = "some preamble\n  =   Spaced Title  \nbody text\n= later\n";
    assert_eq!(extract_title(content, "file.typ"), "Spaced Title");
    let plain = "= My Post\nrest";
    assert_eq!(extract_title(plain, "x.typ"), "My Post");
    // a second-level heading is no title
    let sub = "== subsection\ntext";
    assert_eq!(extract_title(sub, "my_first_post.typ"), "My First Post");
}

#[test]
fn fallback_titles_capitalize_filename_words() {
    assert_eq!(extract_title("", "my_first_post.typ"), "My First Post");
    assert_eq!(extract_title("no heading here", "one.typ"), "One");
    assert_eq!(extract_title("plain text", "a__b.typ"), "A B");
}

#[test]
fn post_titles_are_found_by_slug() {
    let posts = vec![
        BlogPost {
            title: "Hello".to_string(),
            slug: "hello".to_string(),
            created_ms: 0,
            html_path: "hello.html".to_string(),
            text_content: String::new(),
        },
        BlogPost {
            title: "Second".to_string(),
            slug: "second".to_string(),
            created_ms: 1,
            html_path: "second.html".to_string(),
            text_content: String::new(),
        },
    ];
    assert_eq!(get_post_title(&posts, "second"), Some("Second".to_string()));
    assert_eq!(get_post_title(&posts, "missing"), None);
}

#[test]
fn pair_identifiers_validate_their_alphabet() {
    assert!(Pair::from_str("BTC-USDT").is_some());
    assert!(Pair::from_str("").is_none());
    assert!(Pair::from_str("BAD PAIR").is_none());
    assert!(Pair::from_str("ok_1-2").is_some());
    let p = Pair::from_str("BTC-USDT").unwrap();
    assert_eq!(p.render(), "BTC-USDT");
    assert_eq!(p, Pair::from_str("BTC-USDT").unwrap());
}
