//! Name templates.

use renamer::metadata::{DateStamp, FileMeta};
use renamer::template::{sanitize_component, Template};

fn meta() -> FileMeta {
    let mut m = FileMeta::default();
    m.name = "IMG_0042".into();
    m.ext = "JPG".into();
    m.camera_model = Some("Pixel 8".into());
    m
}

#[test]
fn literal_and_field() {
    let t = Template::parse("photo_{name}");
    assert_eq!(t.render(&meta(), 1).unwrap(), "photo_IMG_0042");
}

#[test]
fn counter_padding() {
    let t = Template::parse("{n:03}_{name}");
    assert_eq!(t.render(&meta(), 7).unwrap(), "007_IMG_0042");
}

#[test]
fn missing_field_errors() {
    let t = Template::parse("{date_taken:%Y}");
    assert!(t.render(&meta(), 1).is_err());
}

#[test]
fn slash_in_value_sanitized_but_template_slash_kept() {
    let mut m = meta();
    m.camera_model = Some("a/b".into());
    let t = Template::parse("{parent}/{camera_model}");
    // template slash preserved, value slash -> underscore
    assert!(t.render(&m, 1).unwrap().ends_with("/a_b"));
}

#[test]
fn unclosed_brace_is_literal() {
    let t = Template::parse("{name");
    assert_eq!(t.render(&meta(), 1).unwrap(), "{name");
}

#[test]
fn dates_take_a_format() {
    let mut m = meta();
    // 2020-09-13 12:26:40 UTC.
    m.date_taken = Some(DateStamp { secs: 1_600_000_000, nanos: 0, offset: 0 });
    let t = Template::parse("{date_taken:%Y}/{date_taken:%m}/{name}");
    assert_eq!(t.render(&m, 1).unwrap(), "2020/09/IMG_0042");
    // Without a format the whole date is written.
    let t = Template::parse("{date_taken}");
    assert_eq!(t.render(&m, 1).unwrap(), "2020-09-13");
    // The offset moves the clock.
    m.date_taken = Some(DateStamp { secs: 1_600_000_000, nanos: 0, offset: 12 * 3600 });
    let t = Template::parse("{date_taken:%d %H}");
    assert_eq!(t.render(&m, 1).unwrap(), "14 00");
}

#[test]
fn a_format_that_is_not_one_gives_nothing() {
    let mut m = meta();
    m.date_taken = Some(DateStamp { secs: 0, nanos: 0, offset: 0 });
    let t = Template::parse("{date_taken:%Q}");
    assert!(t.try_render(&m, 1).is_none());
    let t = Template::parse("{date_taken:%Y}");
    assert!(t.try_render(&m, 1).is_some());
}

#[test]
fn a_missing_field_is_named() {
    let t = Template::parse("{lens}");
    match t.render(&meta(), 1) {
        Err(e) => assert_eq!(e.message(), "no value for {lens}"),
        Ok(_) => panic!("there is no lens"),
    }
}

#[test]
fn fields_are_listed_in_order() {
    let t = Template::parse("{n:03}_{name}-{date_taken:%Y}");
    assert_eq!(t.fields(), vec!["n", "name", "date_taken"]);
    assert!(Template::parse("plain text").fields().is_empty());
}

#[test]
fn values_hold_no_slashes() {
    assert_eq!(sanitize_component("a/b"), "a_b");
    assert_eq!(sanitize_component("plain"), "plain");
}

#[test]
fn text_without_braces_is_kept() {
    let t = Template::parse("sub/folder name");
    assert_eq!(t.render(&FileMeta::default(), 3).unwrap(), "sub/folder name");
}

#[test]
fn only_the_template_makes_folders() {
    let mut m = meta();
    m.name = "a/b\\c".into();
    let t = Template::parse("x/{name}/{n:03}");
    let path = t.render(&m, 7).unwrap();
    assert_eq!(path, "x/a_b_c/007");
    assert_eq!(path.matches('/').count(), 2);
}

#[test]
fn unmatched_braces_stay_as_they_are() {
    for text in ["{", "}", "}{", "a}b{c", "}}{{", "x{y{z"] {
        assert_eq!(Template::parse(text).render(&FileMeta::default(), 1).unwrap(), text);
    }
    let t = Template::parse("{name}}-{n}{rest");
    assert_eq!(t.render(&meta(), 5).unwrap(), "IMG_0042}-5{rest");
    assert_eq!(t.fields(), vec!["name", "n"]);
}

#[test]
fn templates_put_together_render_one_after_the_other() {
    let render = |t: &str| Template::parse(t).render(&meta(), 3);
    for head in ["", "a/", "{name}", "x{n:03}}-"] {
        for tail in ["", "{camera_model}", "b{n}", "}{", "{name}_{n}.{ext}"] {
            let whole = render(&format!("{head}{tail}")).unwrap();
            assert_eq!(whole, render(head).unwrap() + &render(tail).unwrap());
        }
    }
    assert_eq!(render("{name}{lens}").unwrap_err().message(), "no value for {lens}");
}
