use ob_pub::extract::{try_key, try_title};
use ob_pub::images::{image_line, process_images};
use ob_pub::post::{decide, extract_note, plan_post, post_date, render_post, tags_text};
use ob_pub::site::{try_site, Conf};

fn blog_conf() -> Conf {
    let mut conf = Conf::new();
    conf.insert("blog".to_string(), "/srv/blog".to_string());
    conf
}

const NOTE: &str = "pub_link: hello-world\npub_tags: rust，notes, misc\nsubtitle: a first post\n[[blog]]\n# Hello World\n---\nSome text.\n![[Shot One.PNG|a shot]]\n";

#[test]
fn test_try_key() {
    let lines = vec!["title: hello", "date: 2021-11-23 00:21:58"];
    assert_eq!(try_key(&lines, "title"), "hello");
    assert_eq!(try_key(&lines, "date"), "2021-11-23 00:21:58");
}

#[test]
fn test_try_title() {
    let lines = vec!["title: hello", "### title world"];
    assert_eq!(try_title(&lines), "title world");

    let lines = vec!["title: hello", "### "];
    assert_eq!(try_title(&lines), "");

    let lines = vec!["title: hello", "### ", "# This good way"];
    assert_eq!(try_title(&lines), "This good way");

    let lines = vec!["title: hello", "### 你好，世界"];
    assert_eq!(try_title(&lines), "你好，世界");
}

#[test]
fn test_images() {
    let lines = vec![
        "![](/Pics/2021-11-29-16-37-14-demo1.png)",
        "![](/Pics/2021-11-29-16-37-14-demo2.png)",
    ];
    let mut files1 = vec![];
    let res1 = process_images(&lines, "./blog/directory", &mut files1);
    assert_eq!(files1.len(), 2);

    let lines = vec![
        "![[2021-11-29-16-37-14-demo1.png]]",
        "![[2021-11-29-16-37-14-demo2.png]]",
    ];
    let mut files2 = vec![];
    let res2 = process_images(&lines, "./blog/directory", &mut files2);
    assert_eq!(files2.len(), 2);

    assert_eq!(files1, files2);
    assert_eq!(res1, res2);
}

#[test]
fn key_absent_is_empty() {
    let lines = vec!["title: hello", "no colon here"];
    assert_eq!(try_key(&lines, "date"), "");
    assert_eq!(try_key(&[], "date"), "");
}

#[test]
fn key_splits_at_first_colon_and_trims() {
    let lines = vec!["  url :  http://example.com/a:b  "];
    assert_eq!(try_key(&lines, "url"), "http://example.com/a:b");
}

#[test]
fn key_matches_exactly_and_first_wins() {
    let lines = vec!["titles: no", "Title: no", "title: first", "title: second"];
    assert_eq!(try_key(&lines, "title"), "first");
}

#[test]
fn title_strips_hash_run_and_collapses_spaces() {
    assert_eq!(try_title(&["  ## Hello   big  world  "]), "Hello big world");
    assert_eq!(try_title(&["##Tight title"]), "Tight title");
    assert_eq!(try_title(&["no heading", "plain"]), "");
}

#[test]
fn title_skips_lines_of_hashes_only() {
    assert_eq!(try_title(&["###", "  #  ", "## Real"]), "Real");
}

#[test]
fn site_found_by_marker() {
    let conf = blog_conf();
    assert_eq!(try_site(&conf, &["up: [[blog]]"]), "blog");
    assert_eq!(try_site(&conf, &["up: [[blogs]]", "[blog]"]), "");
}

#[test]
fn site_first_registered_wins() {
    let mut conf = Conf::new();
    conf.insert("b".to_string(), "/b".to_string());
    conf.insert("a".to_string(), "/a".to_string());
    assert_eq!(try_site(&conf, &["[[a]] [[b]]"]), "b");
}

#[test]
fn conf_insert_replaces_path() {
    let mut conf = blog_conf();
    conf.insert("blog".to_string(), "/other".to_string());
    assert_eq!(conf.len(), 1);
    assert_eq!(conf.get("blog"), Some("/other".to_string()));
    assert_eq!(conf.get("none"), None);
    assert!(!conf.is_empty());
    assert!(Conf::new().is_empty());
}

#[test]
fn wiki_image_with_alt_is_lowercased_and_dashed() {
    let mut files = vec![];
    let out = process_images(&["  ![[My Pic.PNG|cover]]  "], "/srv/blog", &mut files);
    assert_eq!(out, "![cover](/images/ob_my-pic.png)");
    assert_eq!(
        files,
        vec![(
            "./Pics/My Pic.PNG".to_string(),
            "/srv/blog/source/images/ob_my-pic.png".to_string()
        )]
    );
}

#[test]
fn markdown_image_takes_last_segment() {
    let mut files = vec![];
    let out = process_images(&["![alt]( a/b/Demo.png )"], "/t", &mut files);
    assert_eq!(out, "![](/images/ob_demo.png)");
    assert_eq!(
        files,
        vec![("./Pics/Demo.png".to_string(), "/t/source/images/ob_demo.png".to_string())]
    );
}

#[test]
fn other_lines_pass_through_and_duplicates_repeat() {
    let mut files = vec![("x".to_string(), "y".to_string())];
    let out = process_images(&["  text  ", "![[a.png]]", "![[]]", "![[a.png]]"], "/t", &mut files);
    assert_eq!(out, "  text  \n![](/images/ob_a.png)\n![[]]\n![](/images/ob_a.png)");
    assert_eq!(files.len(), 3);
    assert_eq!(files[1], files[2]);
}

#[test]
fn tags_full_width_and_ascii_commas() {
    assert_eq!(tags_text("a，b, c"), "- a\n- b\n- c\n");
    assert_eq!(tags_text(""), "- \n");
}

#[test]
fn note_is_extracted() {
    let note = extract_note(&blog_conf(), NOTE).unwrap();
    assert_eq!(note.title, "Hello World");
    assert_eq!(note.site, "blog");
    assert_eq!(note.link, "hello-world");
    assert_eq!(note.tags, "rust，notes, misc");
    assert_eq!(note.subtitle, "a first post");
    assert_eq!(note.gen_cover, "");
    assert_eq!(note.target, "/srv/blog");
    assert_eq!(note.path, "/srv/blog/source/_posts/hello-world.md");
    assert_eq!(note.body, vec!["Some text.".to_string(), "![[Shot One.PNG|a shot]]".to_string()]);
}

#[test]
fn note_without_heading_is_skipped() {
    let text = "pub_link: x\n[[blog]]\n---\nbody\n";
    assert!(extract_note(&blog_conf(), text).is_none());
}

#[test]
fn note_without_separator_or_site_is_skipped() {
    let conf = blog_conf();
    assert!(extract_note(&conf, "pub_link: x\n[[blog]]\n# T\nbody\n").is_none());
    assert!(extract_note(&conf, "pub_link: x\n[[other]]\n# T\n---\nbody\n").is_none());
    assert!(extract_note(&conf, "[[blog]]\n# T\n---\nbody\n").is_none());
}

#[test]
fn explicit_path_writes_body_only() {
    let text = "pub_path: about/index.md\n[[blog]]\n# About\n---\nline one\r\nline two";
    let note = extract_note(&blog_conf(), text).unwrap();
    assert_eq!(note.path, "/srv/blog/about/index.md");
    let mut files = vec![];
    assert_eq!(render_post(&note, "2020-01-01 00:00:00", &mut files), "line one\nline two");
}

#[test]
fn post_is_rendered_with_front_matter() {
    let note = extract_note(&blog_conf(), NOTE).unwrap();
    let mut files = vec![];
    let text = render_post(&note, "2021-11-23 00:21:58", &mut files);
    assert_eq!(
        text,
        "---\nlayout: post\ntitle: 'Hello World'\ndate: 2021-11-23 00:21:58\ntags: \n- rust\n- notes\n- misc\n\n\nsubtitle: a first post\n\n---\nSome text.\n![a shot](/images/ob_shot-one.png)"
    );
    assert_eq!(
        files,
        vec![(
            "./Pics/Shot One.PNG".to_string(),
            "/srv/blog/source/images/ob_shot-one.png".to_string()
        )]
    );
}

#[test]
fn date_of_previous_post_is_kept() {
    let note = extract_note(&blog_conf(), NOTE).unwrap();
    let prev = "---\nlayout: post\ntitle: 'Old'\ndate: 2021-11-23 00:21:58\n---\nold body\n";
    assert_eq!(post_date(prev), "2021-11-23 00:21:58");
    let plan = plan_post(&note, prev).unwrap();
    assert!(plan.content.contains("\ndate: 2021-11-23 00:21:58\n"));
    assert_eq!(plan.path, "/srv/blog/source/_posts/hello-world.md");
    assert_eq!(plan.copies.len(), 1);
}

#[test]
fn new_post_gets_a_date_now() {
    let d = post_date("");
    assert_eq!(d.len(), 19);
    assert_eq!(&d[4..5], "-");
    assert_eq!(&d[10..11], " ");
}

#[test]
fn second_sync_writes_nothing() {
    let note = extract_note(&blog_conf(), NOTE).unwrap();
    let first = plan_post(&note, "").unwrap();
    assert!(plan_post(&note, &first.content).is_none());
}

#[test]
fn unchanged_text_is_not_written() {
    let note = extract_note(&blog_conf(), NOTE).unwrap();
    let mut files = vec![];
    let text = render_post(&note, "2000-01-01 00:00:00", &mut files);
    assert!(decide(&note, &text, "2000-01-01 00:00:00").is_none());
    let plan = decide(&note, "other", "2000-01-01 00:00:00").unwrap();
    assert_eq!(plan.content, text);
}

#[test]
fn conf_lines_register_sites() {
    let mut conf = Conf::new();
    conf.add_lines("blog: /srv/blog\nno colon\n : /x\nnotes : /n\r\nblog: /new\n");
    assert_eq!(
        conf.entries(),
        vec![
            ("blog".to_string(), "/new".to_string()),
            ("notes".to_string(), "/n".to_string())
        ]
    );
}

#[test]
fn heading_remainder_keeps_unicode() {
    assert_eq!(try_title(&["#\t 你好 世界"]), "你好 世界");
    assert_eq!(try_title(&["## Ünïcödé — ok"]), "Ünïcödé — ok");
}

#[test]
fn title_keeps_other_whitespace_inside_words() {
    assert_eq!(try_title(&["# a\u{3000}b"]), "a\u{3000}b");
    assert_eq!(try_title(&["# a\u{a0}b\tc  d"]), "a\u{a0}b\tc d");
    assert_eq!(try_title(&["#\tSpaced"]), "Spaced");
}

#[test]
fn image_line_from_lowercased_path() {
    let (line, src, dst) = image_line("My Pic.PNG", "cover", "/images/ob_my-pic.png", "/srv");
    assert_eq!(line, "![cover](/images/ob_my-pic.png)");
    assert_eq!(src, "./Pics/My Pic.PNG");
    assert_eq!(dst, "/srv/source/images/ob_my-pic.png");
}

#[test]
fn new_post_date_is_one_clean_line() {
    let d = post_date("");
    assert!(!d.contains('\n'));
    assert_eq!(d.trim(), d);
}

#[test]
fn heading_of_hashes_and_spaces_is_skipped() {
    assert_eq!(try_title(&["# #", "# Real"]), "Real");
    assert_eq!(try_title(&["#\t#", "## # #"]), "");
    assert_eq!(try_title(&["# #x"]), "#x");
}
