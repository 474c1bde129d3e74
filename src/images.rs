use vstd::prelude::*;

use crate::text::{
    chars_of, chars_of_all, copy_range, first_index, first_of, is_first, is_last, is_ws, join_lines, last_index,
    last_of, lemma_first_of, lemma_first_of_none, lemma_last_of, lemma_trim_fixed, lower_of, lowercase, push_all,
    rows, string_of, trim, trim_all, trim_range, views,
};

verus! {

/// The views of a sequence of string pairs.
pub open spec fn pairs(v: Seq<(String, String)>) -> Seq<(Seq<char>, Seq<char>)> {
    v.map_values(|p: (String, String)| (p.0@, p.1@))
}

/// A trimmed line of the wiki embed form `![[...]]`.
pub open spec fn is_wiki(s: Seq<char>) -> bool {
    s.len() >= 5 && s.subrange(0, 3) == seq!['!', '[', '['] && s.subrange(
        s.len() - 2,
        s.len() as int,
    ) == seq![']', ']']
}

/// A trimmed line of the markdown image form `![...)`.
pub open spec fn is_md(s: Seq<char>) -> bool {
    s.len() >= 3 && s.subrange(0, 2) == seq!['!', '['] && s.last() == ')'
}

/// The part of `s` before its first `c`, or all of `s`.
pub open spec fn before_first(s: Seq<char>, c: char) -> Seq<char> {
    if first_of(s, c) >= 0 {
        s.subrange(0, first_of(s, c))
    } else {
        s
    }
}

/// File name and alt text of a wiki embed: the inner text, or, where it holds a
/// `|`, the trimmed part before it and the trimmed part after it (up to a second
/// `|`).
pub open spec fn wiki_ref(s: Seq<char>) -> (Seq<char>, Seq<char>) {
    let inner = s.subrange(3, s.len() - 2);
    let p = first_of(inner, '|');
    if p >= 0 {
        (
            trim(inner.subrange(0, p)),
            trim(before_first(inner.subrange(p + 1, inner.len() as int), '|')),
        )
    } else {
        (inner, seq![])
    }
}

/// File name of a markdown image: the last `/`-separated segment of the trimmed
/// text between the first `(` and the closing `)`.
pub open spec fn md_file(s: Seq<char>) -> Seq<char> {
    let p = first_of(s, '(');
    if p < 0 {
        seq![]
    } else {
        let t = trim(s.subrange(p + 1, s.len() - 1));
        t.subrange(last_of(t, '/') + 1, t.len() as int)
    }
}

/// File name and alt text of the image a trimmed line refers to, if it is an
/// image line with a non-empty file name.
pub open spec fn image_ref(s: Seq<char>) -> Option<(Seq<char>, Seq<char>)> {
    if is_wiki(s) {
        if wiki_ref(s).0.len() > 0 {
            Some(wiki_ref(s))
        } else {
            None
        }
    } else if is_md(s) {
        if md_file(s).len() > 0 {
            Some((md_file(s), seq![]))
        } else {
            None
        }
    } else {
        None
    }
}

/// Spaces replaced by hyphens.
pub open spec fn dashed(f: Seq<char>) -> Seq<char> {
    f.map_values(|c: char| if c == ' ' { '-' } else { c })
}

/// The path of an image in the blog: `/images/ob_<name>`, lower-cased.
pub open spec fn image_path(f: Seq<char>) -> Seq<char> {
    lower_of("/images/ob_"@ + dashed(f))
}

/// Where an image is copied from, and to, given its path in the blog.
pub open spec fn copy_to(f: Seq<char>, path: Seq<char>, target: Seq<char>) -> (Seq<char>, Seq<char>) {
    ("./Pics/"@ + f, target + "/source"@ + path)
}

/// Where an image is copied from, and to.
pub open spec fn copy_of(f: Seq<char>, target: Seq<char>) -> (Seq<char>, Seq<char>) {
    copy_to(f, image_path(f), target)
}

/// A markdown image line: `![alt](path)`.
pub open spec fn image_md(alt: Seq<char>, path: Seq<char>) -> Seq<char> {
    seq!['!', '['] + alt + seq![']', '('] + path + seq![')']
}

/// A line as it stands in the post.
pub open spec fn out_line(line: Seq<char>) -> Seq<char> {
    match image_ref(trim(line)) {
        Some((f, alt)) => image_md(alt, image_path(f)),
        None => line,
    }
}

/// The lines of a post's body, rewritten.
pub open spec fn out_lines(lines: Seq<Seq<char>>) -> Seq<Seq<char>> {
    lines.map_values(|l: Seq<char>| out_line(l))
}

/// The image copies that lines call for, in order.
pub open spec fn copies(lines: Seq<Seq<char>>, target: Seq<char>) -> Seq<(Seq<char>, Seq<char>)>
    decreases lines.len(),
{
    if lines.len() == 0 {
        seq![]
    } else {
        copies(lines.drop_last(), target) + match image_ref(trim(lines.last())) {
            Some((f, _)) => seq![copy_of(f, target)],
            None => seq![],
        }
    }
}

/// The wiki embed of a file: `![[name]]`.
pub open spec fn wiki_line(f: Seq<char>) -> Seq<char> {
    seq!['!', '[', '['] + f + seq![']', ']']
}

/// The markdown image of a file in the pictures directory: `![](/Pics/name)`.
pub open spec fn md_line(f: Seq<char>) -> Seq<char> {
    seq!['!', '[', ']', '(', '/', 'P', 'i', 'c', 's', '/'] + f + seq![')']
}

/// The embed `![[name]]` and the markdown image `![](/Pics/name)` refer to the
/// same file, `name`, with no alt text, for a non-empty name without `/` or `|`
/// that does not end in whitespace.
pub proof fn lemma_two_forms(f: Seq<char>)
    requires
        f.len() > 0,
        forall|j: int| 0 <= j < f.len() ==> f[j] != '/' && f[j] != '|',
        !is_ws(f.last()),
    ensures
        image_ref(trim(wiki_line(f))) == Some((f, Seq::<char>::empty())),
        image_ref(trim(md_line(f))) == Some((f, Seq::<char>::empty())),
{
    let w = wiki_line(f);
    lemma_trim_fixed(w);
    assert(w.subrange(0, 3) =~= seq!['!', '[', '[']);
    assert(w.subrange(w.len() - 2, w.len() as int) =~= seq![']', ']']);
    let inner = w.subrange(3, w.len() - 2);
    assert(inner =~= f);
    lemma_first_of_none(inner, '|');
    assert(wiki_ref(w) == (f, Seq::<char>::empty()));

    let m = md_line(f);
    lemma_trim_fixed(m);
    assert(m.subrange(0, 3) =~= seq!['!', '[', ']']);
    assert(!is_wiki(m)) by {
        if is_wiki(m) {
            assert(m.subrange(0, 3)[2] == m[2]);
        }
    }
    assert(m.subrange(0, 2) =~= seq!['!', '[']);
    assert(is_first(m, '(', 3));
    lemma_first_of(m, '(', 3);
    let body = m.subrange(4, m.len() - 1);
    assert(body =~= seq!['/', 'P', 'i', 'c', 's', '/'] + f);
    lemma_trim_fixed(body);
    assert(is_last(body, '/', 5));
    lemma_last_of(body, '/', 5);
    assert(body.subrange(6, body.len() as int) =~= f);
}

/// Lines that refer to the same images, line by line, are rewritten to the same
/// lines and call for the same copies.
pub proof fn lemma_same_refs(a: Seq<Seq<char>>, b: Seq<Seq<char>>, target: Seq<char>)
    requires
        a.len() == b.len(),
        forall|i: int|
            0 <= i < a.len() ==> #[trigger] image_ref(trim(a[i])) is Some && image_ref(trim(a[i]))
                == image_ref(trim(b[i])),
    ensures
        out_lines(a) == out_lines(b),
        copies(a, target) == copies(b, target),
    decreases a.len(),
{
    assert forall|i: int| 0 <= i < a.len() implies out_lines(a)[i] == out_lines(b)[i] by {
        assert(image_ref(trim(a[i])) is Some);
    }
    assert(out_lines(a) =~= out_lines(b));
    if a.len() > 0 {
        let (a0, b0) = (a.drop_last(), b.drop_last());
        assert forall|i: int| 0 <= i < a0.len() implies #[trigger] image_ref(trim(a0[i])) is Some
            && image_ref(trim(a0[i])) == image_ref(trim(b0[i])) by {
            assert(a0[i] == a[i] && b0[i] == b[i]);
            assert(image_ref(trim(a[i])) is Some);
        }
        lemma_same_refs(a0, b0, target);
        assert(image_ref(trim(a[a.len() - 1])) is Some);
    }
}

/// Spaces replaced by hyphens.
fn dash(f: &Vec<char>) -> (r: Vec<char>)
    ensures
        r@ == dashed(f@),
{
    let mut r: Vec<char> = Vec::new();
    let mut i: usize = 0;
    while i < f.len()
        invariant
            i <= f@.len(),
            r@ == dashed(f@.subrange(0, i as int)),
        decreases f@.len() - i,
    {
        let c = f[i];
        r.push(if c == ' ' { '-' } else { c });
        assert(r@ =~= dashed(f@.subrange(0, i + 1)));
        i = i + 1;
    }
    assert(f@.subrange(0, f@.len() as int) =~= f@);
    r
}

/// The file name and alt text a trimmed line refers to.
fn image_in(s: &Vec<char>) -> (r: Option<(Vec<char>, Vec<char>)>)
    ensures
        r is Some <==> image_ref(s@) is Some,
        r is Some ==> ((r->0).0@, (r->0).1@) == image_ref(s@)->0,
{
    let n = s.len();
    if n >= 5 && s[0] == '!' && s[1] == '[' && s[2] == '[' && s[n - 2] == ']' && s[n - 1] == ']' {
        assert(s@.subrange(0, 3) =~= seq!['!', '[', '[']);
        assert(s@.subrange(n - 2, n as int) =~= seq![']', ']']);
        let inner = copy_range(s, 3, n - 2);
        let (f, alt) = match first_index(&inner, '|') {
            Some(p) => {
                let rest = copy_range(&inner, p + 1, inner.len());
                let q = match first_index(&rest, '|') {
                    Some(q) => q,
                    None => rest.len(),
                };
                assert(before_first(rest@, '|') == rest@.subrange(0, q as int)) by {
                    if first_of(rest@, '|') < 0 {
                        assert(rest@.subrange(0, q as int) =~= rest@);
                    }
                }
                (trim_range(&inner, 0, p), trim_range(&rest, 0, q))
            },
            None => (inner, Vec::new()),
        };
        assert((f@, alt@) == wiki_ref(s@));
        if f.len() > 0 {
            Some((f, alt))
        } else {
            None
        }
    } else {
        proof {
            if is_wiki(s@) {
                assert(s@.subrange(0, 3)[0] == s@[0]);
                assert(s@.subrange(0, 3)[1] == s@[1]);
                assert(s@.subrange(0, 3)[2] == s@[2]);
                assert(s@.subrange(n - 2, n as int)[0] == s@[n - 2]);
                assert(s@.subrange(n - 2, n as int)[1] == s@[n - 1]);
            }
        }
        if n >= 3 && s[0] == '!' && s[1] == '[' && s[n - 1] == ')' {
            assert(s@.subrange(0, 2) =~= seq!['!', '[']);
            match first_index(s, '(') {
                Some(p) => {
                    let t = trim_range(s, p + 1, n - 1);
                    let tn = t.len();
                    let f = match last_index(&t, '/') {
                        Some(k) => copy_range(&t, k + 1, tn),
                        None => {
                            assert(t@.subrange(0, t@.len() as int) =~= t@);
                            t
                        },
                    };
                    assert(f@ == md_file(s@));
                    if f.len() > 0 {
                        Some((f, Vec::new()))
                    } else {
                        None
                    }
                },
                None => None,
            }
        } else {
            proof {
                if is_md(s@) {
                    assert(s@.subrange(0, 2)[0] == s@[0]);
                    assert(s@.subrange(0, 2)[1] == s@[1]);
                }
            }
            None
        }
    }
}

/// Rewrites the image lines of a post's body (`![[name]]`, `![[name|alt]]`,
/// `![alt](path/name)`) to `![alt](/images/ob_<name>)`, lower-cased and with
/// hyphens for spaces, and appends to `files` the copy each calls for: from
/// `./Pics/<name>` to `<hexo_target>/source/images/ob_<name>`. Other lines stay
/// as they are. Returns the lines joined by `\n`.
pub fn process_images(lines: &[&str], hexo_target: &str, files: &mut Vec<(String, String)>) -> (r:
    String)
    ensures
        r@ == join_lines(out_lines(views(lines@))),
        pairs(final(files)@) == pairs(old(files)@) + copies(views(lines@), hexo_target@),
{
    let ls = chars_of_all(lines);
    assert(rows(ls@) =~= views(lines@));
    let target = chars_of(hexo_target);
    let out = rewrite_body(&ls, &target, files);
    string_of(&out)
}

/// The rewritten line and the copy for an image `file` with `alt` text, once
/// its path in the blog (`image_name`, already lower-cased) is known: the line
/// `![alt](image_name)`, the copy from `./Pics/<file>` to
/// `<target>/source<image_name>`.
pub fn image_line(file: &str, alt: &str, image_name: &str, target: &str) -> (r: (
    String,
    String,
    String,
))
    ensures
        r.0@ == image_md(alt@, image_name@),
        (r.1@, r.2@) == copy_to(file@, image_name@, target@),
{
    let path = chars_of(image_name);
    let mut img = chars_of("./Pics/");
    push_all(&mut img, &chars_of(file));
    let mut dst = chars_of(target);
    push_all(&mut dst, &chars_of("/source"));
    push_all(&mut dst, &path);
    let mut l = vec!['!', '['];
    push_all(&mut l, &chars_of(alt));
    push_all(&mut l, &vec![']', '(']);
    push_all(&mut l, &path);
    l.push(')');
    (string_of(&l), string_of(&img), string_of(&dst))
}

/// `process_images` on lines held as characters.
pub(crate) fn rewrite_body(
    lines: &Vec<Vec<char>>,
    target: &Vec<char>,
    files: &mut Vec<(String, String)>,
) -> (r: Vec<char>)
    ensures
        r@ == join_lines(out_lines(rows(lines@))),
        pairs(final(files)@) == pairs(old(files)@) + copies(rows(lines@), target@),
{
    let ghost ls = rows(lines@);
    let images = chars_of("/images/ob_");
    let mut out: Vec<char> = Vec::new();
    let mut i: usize = 0;
    while i < lines.len()
        invariant
            i <= lines@.len(),
            ls == rows(lines@),
                        images@ == "/images/ob_"@,
            out@ == join_lines(out_lines(ls.subrange(0, i as int))),
            pairs(files@) == pairs(old(files)@) + copies(ls.subrange(0, i as int), target@),
        decreases lines@.len() - i,
    {
        let ghost done = ls.subrange(0, i as int);
        let ghost next = ls.subrange(0, i + 1);
        assert(next.drop_last() =~= done);
        assert(next.last() == lines@[i as int]@);
        assert(out_lines(next) =~= out_lines(done).push(out_line(lines@[i as int]@)));
        let line = copy_range(&lines[i], 0, lines[i].len());
        assert(line@ =~= lines@[i as int]@);
        let s = trim_all(&line);
        let ghost before = files@;
        let new_line: Vec<char> = match image_in(&s) {
            Some((f, alt)) => {
                let mut name = Vec::new();
                push_all(&mut name, &images);
                push_all(&mut name, &dash(&f));
                let image_name = lowercase(&string_of(&name));
                let (l, src, dst) = image_line(
                    string_of(&f).as_str(),
                    string_of(&alt).as_str(),
                    image_name.as_str(),
                    string_of(target).as_str(),
                );
                files.push((src, dst));
                assert(pairs(files@) =~= pairs(before).push(copy_of(f@, target@)));
                chars_of(l.as_str())
            },
            None => {
                assert(pairs(files@) =~= pairs(before) + Seq::<(Seq<char>, Seq<char>)>::empty());
                line
            },
        };
        assert(copies(next, target@) =~= copies(done, target@) + (
        match image_ref(trim(next.last())) {
            Some((f, _)) => seq![copy_of(f, target@)],
            None => seq![],
        }));
        let ghost ol = out_lines(next);
        assert(ol.drop_last() =~= out_lines(done));
        assert(ol.last() == new_line@);
        if i > 0 {
            out.push('\n');
        } else {
            assert(out@ =~= Seq::<char>::empty());
        }
        push_all(&mut out, &new_line);
        assert(out@ =~= join_lines(out_lines(next)));
        i = i + 1;
    }
    assert(ls.subrange(0, i as int) =~= ls);
    out
}

} // verus!
