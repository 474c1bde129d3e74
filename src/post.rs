use vstd::prelude::*;

use chrono::Utc;
use chrono_tz::Tz;

use crate::extract::{
    has_key, key_in, key_value, lemma_key_found, lemma_key_line, lemma_key_value_clean,
    lemma_title_no_nl, title_in, title_of,
};
use crate::images::{copies, out_lines, pairs, rewrite_body};
use crate::site::{find_site, site_in, site_of, Conf};
use crate::text::{
    chars_of, clean, copy_range, is_ws, join_lines, lemma_first_of_none, lemma_lines_cons,
    lemma_lines_no_nl, lemma_trim_end_shape, lemma_trim_fixed, lines_of, no_nl, push_all, rows, same_chars,
    split_lines, string_of, strip_cr, trim, trim_end, trim_range, trim_start,
};

verus! {

/// The views of a sequence of strings.
pub open spec fn strings(v: Seq<String>) -> Seq<Seq<char>> {
    v.map_values(|s: String| s@)
}

/// A line that ends a note's meta block: it starts with `---`.
pub open spec fn is_sep(line: Seq<char>) -> bool {
    line.len() >= 3 && line.subrange(0, 3) == seq!['-', '-', '-']
}

/// `i` is the first separator line.
pub open spec fn is_first_sep(lines: Seq<Seq<char>>, i: int) -> bool {
    0 <= i < lines.len() && is_sep(lines[i]) && forall|j: int| 0 <= j < i ==> !is_sep(lines[j])
}

/// The position of the first separator line, or -1 where there is none.
pub open spec fn sep_of(lines: Seq<Seq<char>>) -> int {
    if exists|i: int| is_first_sep(lines, i) {
        choose|i: int| is_first_sep(lines, i)
    } else {
        -1
    }
}

/// The lines before the first separator.
pub open spec fn meta_of(lines: Seq<Seq<char>>) -> Seq<Seq<char>> {
    lines.subrange(0, sep_of(lines))
}

/// The lines after the first separator.
pub open spec fn body_of(lines: Seq<Seq<char>>) -> Seq<Seq<char>> {
    lines.subrange(sep_of(lines) + 1, lines.len() as int)
}

/// A meta block names a title, a registered site, and a link or an explicit
/// output path.
pub open spec fn publishable(sites: Seq<(Seq<char>, Seq<char>)>, meta: Seq<Seq<char>>) -> bool {
    title_of(meta).len() > 0 && site_of(sites, meta).len() > 0 && (key_value(meta, "pub_link"@).len()
        > 0 || key_value(meta, "pub_path"@).len() > 0)
}

/// Where a post is written: `<target>/<path>` for an explicit path, else
/// `<target>/source/_posts/<link>.md`.
pub open spec fn dest_path(target: Seq<char>, link: Seq<char>, path: Seq<char>) -> Seq<char> {
    if path.len() > 0 {
        target + "/"@ + path
    } else {
        target + "/source/_posts/"@ + link + ".md"@
    }
}

/// A note's metadata and body, ready to be turned into a post.
pub struct Note {
    /// The text of its first heading.
    pub title: String,
    /// The name of the site it goes to.
    pub site: String,
    /// `pub_link`: the post's file name, without `.md`.
    pub link: String,
    /// `pub_tags`: tags separated by commas.
    pub tags: String,
    /// `gen_cover`, or empty.
    pub gen_cover: String,
    /// `subtitle`, or empty.
    pub subtitle: String,
    /// `pub_path`: an output path under the site, or empty.
    pub meta_path: String,
    /// The site's root directory.
    pub target: String,
    /// Where the post is written.
    pub path: String,
    /// The lines after the separator.
    pub body: Vec<String>,
}

/// `n` is what the note with these lines gives, with these sites.
pub open spec fn note_of(n: Note, sites: Seq<(Seq<char>, Seq<char>)>, lines: Seq<Seq<char>>) -> bool {
    let meta = meta_of(lines);
    &&& 0 <= sep_of(lines) < lines.len()
    &&& n.title@ == title_of(meta)
    &&& n.site@ == site_of(sites, meta)
    &&& n.link@ == key_value(meta, "pub_link"@)
    &&& n.tags@ == key_value(meta, "pub_tags"@)
    &&& n.gen_cover@ == key_value(meta, "gen_cover"@)
    &&& n.subtitle@ == key_value(meta, "subtitle"@)
    &&& n.meta_path@ == key_value(meta, "pub_path"@)
    &&& n.target@ == sites[find_site(sites, n.site@)].1
    &&& n.path@ == dest_path(n.target@, n.link@, n.meta_path@)
    &&& strings(n.body@) == body_of(lines)
}

/// A tag separator: an ASCII or a full-width comma.
pub open spec fn is_comma(c: char) -> bool {
    c == ',' || c == '\u{ff0c}'
}

/// Reads `s` from the left: the tags already ended by a comma, and the tag
/// still open.
pub open spec fn split_commas(s: Seq<char>) -> (Seq<Seq<char>>, Seq<char>)
    decreases s.len(),
{
    if s.len() == 0 {
        (seq![], seq![])
    } else {
        let (done, open) = split_commas(s.drop_last());
        if is_comma(s.last()) {
            (done.push(open), seq![])
        } else {
            (done, open.push(s.last()))
        }
    }
}

/// Each text trimmed.
pub open spec fn trimmed(ts: Seq<Seq<char>>) -> Seq<Seq<char>> {
    ts.map_values(|t: Seq<char>| trim(t))
}

/// The tags of a `pub_tags` value: its comma-separated parts, trimmed.
pub open spec fn tag_list(s: Seq<char>) -> Seq<Seq<char>> {
    let (done, open) = split_commas(s);
    trimmed(done.push(open))
}

/// One `- <tag>` line per tag.
pub open spec fn tag_lines(tags: Seq<Seq<char>>) -> Seq<char>
    decreases tags.len(),
{
    if tags.len() == 0 {
        seq![]
    } else {
        tag_lines(tags.drop_last()) + "- "@ + tags.last() + "\n"@
    }
}

/// An optional front-matter line: empty where the value is.
pub open spec fn opt_line(key: Seq<char>, value: Seq<char>) -> Seq<char> {
    if value.len() == 0 {
        seq![]
    } else {
        "\n"@ + key + ": "@ + value
    }
}

/// The front matter of a post.
pub open spec fn front_matter(n: Note, date: Seq<char>) -> Seq<char> {
    "---\nlayout: post\ntitle: '"@ + n.title@ + "'\ndate: "@ + date + "\ntags: \n"@ + tag_lines(
        tag_list(n.tags@),
    ) + "\n"@ + opt_line("gen_cover"@, n.gen_cover@) + opt_line("subtitle"@, n.subtitle@) + "\n"@
}

/// The text written for a note: its rewritten body, after the front matter and
/// a `---` line unless the note gives an explicit output path.
pub open spec fn post_content(n: Note, date: Seq<char>) -> Seq<char> {
    let body = join_lines(out_lines(strings(n.body@)));
    if n.meta_path@.len() > 0 {
        body
    } else {
        front_matter(n, date) + "\n---\n"@ + body
    }
}

/// The date of a post: the `date` of the text it replaces, where there is one,
/// else `now`.
pub open spec fn date_for(prev: Seq<char>, now: Seq<char>) -> Seq<char> {
    if prev.len() > 0 {
        key_value(lines_of(prev), "date"@)
    } else {
        now
    }
}

/// What to do for a note whose post has changed: the copies, then the write.
pub struct Plan {
    /// Where the post is written.
    pub path: String,
    /// The text written there.
    pub content: String,
    /// Images to copy first: (from, to).
    pub copies: Vec<(String, String)>,
}

/// An ASCII digit.
pub open spec fn is_digit(c: char) -> bool {
    '0' <= c && c <= '9'
}

/// The time part of a stamp after its year: `-MM-DD HH:MM:SS`.
pub open spec fn stamp_tail(t: Seq<char>) -> bool {
    &&& t.len() == 15
    &&& t[0] == '-' && t[3] == '-' && t[6] == ' ' && t[9] == ':' && t[12] == ':'
    &&& forall|i: int|
        0 <= i < 15 && i != 0 && i != 3 && i != 6 && i != 9 && i != 12 ==> is_digit(#[trigger] t[i])
}

/// A year as `%Y` writes it: four digits, or a sign and at least four digits.
pub open spec fn stamp_year(y: Seq<char>) -> bool {
    ||| y.len() == 4 && forall|i: int| 0 <= i < 4 ==> is_digit(#[trigger] y[i])
    ||| y.len() >= 5 && (y[0] == '+' || y[0] == '-') && forall|i: int|
        1 <= i < y.len() ==> is_digit(#[trigger] y[i])
}

/// A date stamp `YYYY-MM-DD HH:MM:SS`, the year written as `stamp_year`.
pub open spec fn date_shape(s: Seq<char>) -> bool {
    s.len() >= 19 && stamp_year(s.subrange(0, s.len() - 15)) && stamp_tail(
        s.subrange(s.len() - 15, s.len() as int),
    )
}

/// A date stamp reads back as itself from a line.
pub proof fn lemma_date_shape_clean(s: Seq<char>)
    requires
        date_shape(s),
    ensures
        clean(s),
{
    let y = s.subrange(0, s.len() - 15);
    let t = s.subrange(s.len() - 15, s.len() as int);
    assert forall|i: int| 0 <= i < s.len() implies s[i] != '\n' by {
        if i < s.len() - 15 {
            assert(s[i] == y[i]);
            if i > 0 {
                assert(is_digit(y[i]));
            }
        } else {
            assert(s[i] == t[i - (s.len() - 15)]);
            let k = i - (s.len() - 15);
            if k != 0 && k != 3 && k != 6 && k != 9 && k != 12 {
                assert(is_digit(t[k]));
            }
        }
    }
    assert(s[0] == y[0]);
    if y.len() == 4 {
        assert(is_digit(y[0]));
    }
    assert(s.last() == t[14]);
    assert(is_digit(t[14]));
    lemma_trim_fixed(s);
}

/// Relies on chrono's `Utc::now`, `DateTime::with_timezone` with chrono-tz's
/// `Asia/Chongqing` zone, and `DateTime::format`: the time now in that zone, as
/// `YYYY-MM-DD HH:MM:SS`. Which time it is depends on the clock; every outcome
/// has that shape, each field zero-padded to two digits and the year to four,
/// a year out of 0..=9999 written with its sign.
#[verifier::external_body]
fn now_stamp() -> (r: String)
    ensures
        date_shape(r@),
{
    Utc::now().with_timezone(&Tz::Asia__Chongqing).format("%Y-%m-%d %H:%M:%S").to_string()
}

/// The position of the first separator line.
fn sep_in(lines: &Vec<Vec<char>>) -> (r: Option<usize>)
    ensures
        r is Some ==> sep_of(rows(lines@)) == r->0 as int && r->0 < lines@.len(),
        r is None ==> sep_of(rows(lines@)) == -1,
{
    let ghost ls = rows(lines@);
    let mut i: usize = 0;
    while i < lines.len()
        invariant
            i <= lines@.len(),
            ls == rows(lines@),
            forall|j: int| 0 <= j < i ==> !is_sep(#[trigger] ls[j]),
        decreases lines@.len() - i,
    {
        let l = &lines[i];
        assert(ls[i as int] == l@);
        if l.len() >= 3 && l[0] == '-' && l[1] == '-' && l[2] == '-' {
            assert(l@.subrange(0, 3) =~= seq!['-', '-', '-']);
            assert(is_first_sep(ls, i as int));
            proof {
                let k = choose|k: int| is_first_sep(ls, k);
                assert(is_first_sep(ls, k));
                if k < i {
                    assert(!is_sep(ls[k]));
                } else if k > i {
                    assert(!is_sep(ls[i as int]));
                }
            }
            return Some(i);
        }
        proof {
            if is_sep(l@) {
                assert(l@.subrange(0, 3)[0] == l@[0]);
                assert(l@.subrange(0, 3)[1] == l@[1]);
                assert(l@.subrange(0, 3)[2] == l@[2]);
            }
        }
        i = i + 1;
    }
    None
}

/// Copies of the lines `from..to`.
fn rows_range(lines: &Vec<Vec<char>>, from: usize, to: usize) -> (r: Vec<Vec<char>>)
    requires
        from <= to <= lines@.len(),
    ensures
        rows(r@) == rows(lines@).subrange(from as int, to as int),
{
    let mut r: Vec<Vec<char>> = Vec::new();
    let mut i: usize = from;
    while i < to
        invariant
            from <= i <= to <= lines@.len(),
            rows(r@) == rows(lines@).subrange(from as int, i as int),
        decreases to - i,
    {
        let ghost before = r@;
        let l = copy_range(&lines[i], 0, lines[i].len());
        assert(l@ =~= lines@[i as int]@);
        r.push(l);
        assert(r@ == before.push(l));
        assert(rows(r@) =~= rows(before).push(lines@[i as int]@));
        assert(rows(r@) =~= rows(lines@).subrange(from as int, i + 1));
        i = i + 1;
    }
    r
}

/// Lines as strings.
fn strings_of(lines: &Vec<Vec<char>>) -> (r: Vec<String>)
    ensures
        strings(r@) == rows(lines@),
{
    let mut r: Vec<String> = Vec::new();
    let mut i: usize = 0;
    while i < lines.len()
        invariant
            i <= lines@.len(),
            strings(r@) == rows(lines@).subrange(0, i as int),
        decreases lines@.len() - i,
    {
        let ghost before = r@;
        let l = string_of(&lines[i]);
        r.push(l);
        assert(r@ == before.push(l));
        assert(strings(r@) =~= strings(before).push(lines@[i as int]@));
        assert(strings(r@) =~= rows(lines@).subrange(0, i + 1));
        i = i + 1;
    }
    assert(rows(lines@).subrange(0, i as int) =~= rows(lines@));
    r
}

/// Strings as lines of characters.
fn rows_of(v: &Vec<String>) -> (r: Vec<Vec<char>>)
    ensures
        rows(r@) == strings(v@),
{
    let mut r: Vec<Vec<char>> = Vec::new();
    let mut i: usize = 0;
    while i < v.len()
        invariant
            i <= v@.len(),
            rows(r@) == strings(v@).subrange(0, i as int),
        decreases v@.len() - i,
    {
        let ghost before = r@;
        let l = chars_of(v[i].as_str());
        r.push(l);
        assert(r@ == before.push(l));
        assert(rows(r@) =~= rows(before).push(v@[i as int]@));
        assert(rows(r@) =~= strings(v@).subrange(0, i + 1));
        i = i + 1;
    }
    assert(strings(v@).subrange(0, i as int) =~= strings(v@));
    r
}

/// Reads a note: splits it at its first `---` line, takes title, site, link,
/// tags, `gen_cover`, `subtitle` and `pub_path` from the lines before it, and
/// finds where its post goes. `None` where the note has no separator, or lacks
/// a title, a registered site, or both a link and an explicit path.
pub fn extract_note(conf: &Conf, text: &str) -> (r: Option<Note>)
    ensures
        r is Some <==> sep_of(lines_of(text@)) >= 0 && publishable(
            conf@,
            meta_of(lines_of(text@)),
        ),
        r is Some ==> note_of(r->0, conf@, lines_of(text@)),
{
    let all = split_lines(&chars_of(text));
    let ghost ls = lines_of(text@);
    let sep = match sep_in(&all) {
        Some(i) => i,
        None => return None,
    };
    let meta = rows_range(&all, 0, sep);
    let link = key_in(&meta, &chars_of("pub_link"));
    let tags = key_in(&meta, &chars_of("pub_tags"));
    let gen_cover = key_in(&meta, &chars_of("gen_cover"));
    let subtitle = key_in(&meta, &chars_of("subtitle"));
    let meta_path = key_in(&meta, &chars_of("pub_path"));
    let site = site_in(conf, &meta);
    let title = title_in(&meta);
    if title.len() == 0 || site.len() == 0 || (link.len() == 0 && meta_path.len() == 0) {
        return None;
    }
    let site_name = string_of(&site);
    proof {
        crate::site::lemma_site_found(conf@, rows(meta@));
    }
    let target = match conf.get(site_name.as_str()) {
        Some(t) => t,
        None => return None,
    };
    let mut path: Vec<char> = chars_of(target.as_str());
    if meta_path.len() > 0 {
        push_all(&mut path, &chars_of("/"));
        push_all(&mut path, &meta_path);
    } else {
        push_all(&mut path, &chars_of("/source/_posts/"));
        push_all(&mut path, &link);
        push_all(&mut path, &chars_of(".md"));
    }
    let n = all.len();
    let body = rows_range(&all, sep + 1, n);
    Some(
        Note {
            title: string_of(&title),
            site: site_name,
            link: string_of(&link),
            tags: string_of(&tags),
            gen_cover: string_of(&gen_cover),
            subtitle: string_of(&subtitle),
            meta_path: string_of(&meta_path),
            target,
            path: string_of(&path),
            body: strings_of(&body),
        },
    )
}

/// One `- <tag>` line per tag of a `pub_tags` value, split at ASCII and
/// full-width commas and trimmed.
pub fn tags_text(tags: &str) -> (r: String)
    ensures
        r@ == tag_lines(tag_list(tags@)),
{
    let s = chars_of(tags);
    let dash = chars_of("- ");
    let nl = chars_of("\n");
    let mut out: Vec<char> = Vec::new();
    let mut start: usize = 0;
    let mut i: usize = 0;
    while i < s.len()
        invariant
            start <= i <= s@.len(),
            dash@ == "- "@,
            nl@ == "\n"@,
            split_commas(s@.subrange(0, i as int)).1 == s@.subrange(start as int, i as int),
            out@ == tag_lines(trimmed(split_commas(s@.subrange(0, i as int)).0)),
        decreases s@.len() - i,
    {
        let ghost prev = s@.subrange(0, i as int);
        let ghost next = s@.subrange(0, i + 1);
        assert(next.drop_last() =~= prev);
        if s[i] == ',' || s[i] == '\u{ff0c}' {
            let t = trim_range(&s, start, i);
            let ghost done = split_commas(prev).0;
            push_all(&mut out, &dash);
            push_all(&mut out, &t);
            push_all(&mut out, &nl);
            assert(trimmed(done.push(s@.subrange(start as int, i as int))) =~= trimmed(done).push(
                t@,
            ));
            assert(trimmed(done).push(t@).drop_last() =~= trimmed(done));
            start = i + 1;
            assert(s@.subrange(start as int, i + 1) =~= Seq::<char>::empty());
        } else {
            assert(s@.subrange(start as int, i + 1) =~= s@.subrange(start as int, i as int).push(
                s@[i as int],
            ));
        }
        i = i + 1;
    }
    assert(s@.subrange(0, i as int) =~= s@);
    let t = trim_range(&s, start, i);
    let ghost done = split_commas(s@).0;
    push_all(&mut out, &dash);
    push_all(&mut out, &t);
    push_all(&mut out, &nl);
    assert(trimmed(done.push(s@.subrange(start as int, i as int))) =~= trimmed(done).push(t@));
    assert(trimmed(done).push(t@).drop_last() =~= trimmed(done));
    string_of(&out)
}

/// `r` is what a sync of note `n` decides where `prev` stands at its path and
/// `date` is the post's date: nothing where the text would not change, else
/// the write of the new text and the copies that its images call for.
pub open spec fn plan_is(r: Option<Plan>, n: Note, prev: Seq<char>, date: Seq<char>) -> bool {
    &&& (r is None <==> post_content(n, date) == prev)
    &&& (r is Some ==> {
        &&& r->0.path@ == n.path@
        &&& r->0.content@ == post_content(n, date)
        &&& pairs(r->0.copies@) == copies(strings(n.body@), n.target@)
    })
}

/// An optional front-matter line.
fn opt_text(key: &str, value: &String) -> (r: Vec<char>)
    ensures
        r@ == opt_line(key@, value@),
{
    let v = chars_of(value.as_str());
    if v.len() == 0 {
        return Vec::new();
    }
    let mut r = chars_of("\n");
    push_all(&mut r, &chars_of(key));
    push_all(&mut r, &chars_of(": "));
    push_all(&mut r, &v);
    r
}

/// The text of a note's post with the given date, and the image copies it
/// calls for, appended to `files`.
pub fn render_post(note: &Note, date: &str, files: &mut Vec<(String, String)>) -> (r: String)
    ensures
        r@ == post_content(*note, date@),
        pairs(final(files)@) == pairs(old(files)@) + copies(strings(note.body@), note.target@),
{
    let body = rewrite_body(&rows_of(&note.body), &chars_of(note.target.as_str()), files);
    if note.meta_path.as_str().is_empty() {
        let mut out = chars_of("---\nlayout: post\ntitle: '");
        push_all(&mut out, &chars_of(note.title.as_str()));
        push_all(&mut out, &chars_of("'\ndate: "));
        push_all(&mut out, &chars_of(date));
        push_all(&mut out, &chars_of("\ntags: \n"));
        push_all(&mut out, &chars_of(tags_text(note.tags.as_str()).as_str()));
        push_all(&mut out, &chars_of("\n"));
        push_all(&mut out, &opt_text("gen_cover", &note.gen_cover));
        push_all(&mut out, &opt_text("subtitle", &note.subtitle));
        push_all(&mut out, &chars_of("\n"));
        push_all(&mut out, &chars_of("\n---\n"));
        push_all(&mut out, &body);
        string_of(&out)
    } else {
        string_of(&body)
    }
}

/// The date of a post that replaces `prev`: the value of its first `date` line
/// where `prev` is not empty, else the time now. Either way it reads back as
/// itself from a `date:` line.
pub fn post_date(prev: &str) -> (r: String)
    ensures
        prev@.len() > 0 ==> r@ == key_value(lines_of(prev@), "date"@),
        prev@.len() == 0 ==> date_shape(r@),
        clean(r@),
{
    if prev.is_empty() {
        let r = now_stamp();
        proof {
            lemma_date_shape_clean(r@);
        }
        r
    } else {
        let lines = split_lines(&chars_of(prev));
        let v = key_in(&lines, &chars_of("date"));
        proof {
            lemma_lines_no_nl(prev@);
            lemma_key_value_clean(lines_of(prev@), "date"@);
        }
        string_of(&v)
    }
}

/// What a sync does for `note` where `prev` stands at its path (empty where
/// nothing does) and the post is dated `date`.
pub fn decide(note: &Note, prev: &str, date: &str) -> (r: Option<Plan>)
    ensures
        plan_is(r, *note, prev@, date@),
{
    let mut files: Vec<(String, String)> = Vec::new();
    let content = render_post(note, date, &mut files);
    assert(pairs(files@) =~= copies(strings(note.body@), note.target@));
    if same_chars(&chars_of(content.as_str()), &chars_of(prev)) {
        None
    } else {
        Some(Plan { path: note.path.clone(), content, copies: files })
    }
}

/// What a sync does for `note` where `prev` stands at its path (empty where
/// nothing does): the post keeps the date of `prev`, or is dated now.
pub fn plan_post(note: &Note, prev: &str) -> (r: Option<Plan>)
    ensures
        prev@.len() > 0 ==> plan_is(r, *note, prev@, key_value(lines_of(prev@), "date"@)),
        exists|d: Seq<char>|
            clean(d) && (prev@.len() == 0 ==> date_shape(d)) && plan_is(r, *note, prev@, d),
{
    let date = post_date(prev);
    let r = decide(note, prev, date.as_str());
    assert(clean(date@) && (prev@.len() == 0 ==> date_shape(date@)) && plan_is(
        r,
        *note,
        prev@,
        date@,
    ));
    r
}

/// The front matter's first four lines, then `rest`.
pub open spec fn head_then(title: Seq<char>, date: Seq<char>, rest: Seq<char>) -> Seq<char> {
    "---\nlayout: post\ntitle: '"@ + title + "'\ndate: "@ + date + seq!['\n'] + rest
}

/// Read back, a front matter's `date` line gives the date written there.
proof fn lemma_head_date(title: Seq<char>, date: Seq<char>, rest: Seq<char>)
    requires
        no_nl(title),
        clean(date),
    ensures
        key_value(lines_of(head_then(title, date, rest)), "date"@) == date,
{
    reveal_strlit("---\nlayout: post\ntitle: '");
    reveal_strlit("'\ndate: ");
    reveal_strlit("date");
    let x1 = seq!['-', '-', '-'];
    let k2 = seq!['l', 'a', 'y', 'o', 'u', 't'];
    let v2 = seq!['p', 'o', 's', 't'];
    let x2 = k2 + seq![':', ' '] + v2;
    let k3 = seq!['t', 'i', 't', 'l', 'e'];
    let v3 = seq!['\''] + title + seq!['\''];
    let x3 = k3 + seq![':', ' '] + v3;
    let k4 = seq!['d', 'a', 't', 'e'];
    let x4 = k4 + seq![':', ' '] + date;
    assert(k4 =~= "date"@);
    let whole = head_then(title, date, rest);
    assert(whole =~= x1.push('\n') + (x2.push('\n') + (x3.push('\n') + (x4.push('\n') + rest))));
    assert(no_nl(x1));
    assert(no_nl(x2));
    assert(no_nl(x3));
    assert(no_nl(x4));
    lemma_lines_cons(x4, rest);
    lemma_lines_cons(x3, x4.push('\n') + rest);
    lemma_lines_cons(x2, x3.push('\n') + (x4.push('\n') + rest));
    lemma_lines_cons(x1, x2.push('\n') + (x3.push('\n') + (x4.push('\n') + rest)));
    assert(strip_cr(x1) == x1);
    assert(strip_cr(x2) == x2);
    assert(strip_cr(x3) == x3);
    assert(strip_cr(x4) == x4) by {
        if date.len() > 0 {
            lemma_trim_end_shape(trim_start(date));
            assert(trim_end(trim_start(date)) == date);
            assert(x4.last() == date.last());
            assert(!is_ws(date.last()));
        } else {
            assert(x4.last() == ' ');
        }
    }
    let ls = lines_of(whole);
    assert(ls[0] == x1 && ls[1] == x2 && ls[2] == x3 && ls[3] == x4);
    lemma_first_of_none(x1, ':');
    lemma_key_line(k2, v2);
    lemma_trim_fixed(v3);
    lemma_key_line(k3, v3);
    lemma_key_line(k4, date);
    assert(k2 != k4) by {
        assert(k2.len() != k4.len());
    }
    assert(k3 != k4) by {
        assert(k3.len() != k4.len());
    }
    assert forall|j: int| 0 <= j < 3 implies !has_key(#[trigger] ls[j], "date"@) by {
        if j == 0 {
            assert(!has_key(x1, k4));
        }
    }
    lemma_key_found(ls, "date"@, 3);
}

/// Syncing a note twice with nothing changed writes nothing the second time:
/// the text that the first sync leaves at the post's path (`post_content` with
/// the date that `prev` gave, or `now` where `prev` was empty) is what the
/// second sync computes again, whatever its own `now2`. Where `prev` is empty,
/// `now` must read back as itself from a line, as every date that `post_date`
/// and `plan_post` use does.
pub proof fn lemma_resync_unchanged(
    n: Note,
    sites: Seq<(Seq<char>, Seq<char>)>,
    text: Seq<char>,
    prev: Seq<char>,
    now: Seq<char>,
    now2: Seq<char>,
)
    requires
        note_of(n, sites, lines_of(text)),
        prev.len() == 0 ==> clean(now),
    ensures
        post_content(n, date_for(post_content(n, date_for(prev, now)), now2)) == post_content(
            n,
            date_for(prev, now),
        ),
{
    let e = date_for(prev, now);
    let c = post_content(n, e);
    if n.meta_path@.len() == 0 {
        if prev.len() > 0 {
            lemma_lines_no_nl(prev);
            lemma_key_value_clean(lines_of(prev), "date"@);
        }
        lemma_lines_no_nl(text);
        let meta = meta_of(lines_of(text));
        assert forall|i: int| 0 <= i < meta.len() implies no_nl(#[trigger] meta[i]) by {
            assert(meta[i] == lines_of(text)[i]);
        }
        lemma_title_no_nl(meta);
        let body = join_lines(out_lines(strings(n.body@)));
        let rest = "tags: \n"@ + tag_lines(tag_list(n.tags@)) + "\n"@ + opt_line(
            "gen_cover"@,
            n.gen_cover@,
        ) + opt_line("subtitle"@, n.subtitle@) + "\n"@ + "\n---\n"@ + body;
        reveal_strlit("\ntags: \n");
        reveal_strlit("tags: \n");
        assert("\ntags: \n"@ =~= seq!['\n'] + "tags: \n"@);
        assert(c =~= head_then(n.title@, e, rest));
        lemma_head_date(n.title@, e, rest);
        reveal_strlit("---\nlayout: post\ntitle: '");
        assert(c.len() > 0);
    }
}

/// A post keeps the date of the text it replaces: where the first line of
/// `prev` that carries a `date` key is `date: <d>`, with `d` trimmed, the new
/// post is dated `d`, whatever the time now.
pub proof fn lemma_date_kept(prev: Seq<char>, d: Seq<char>, i: int, now: Seq<char>)
    requires
        0 <= i < lines_of(prev).len(),
        lines_of(prev)[i] == "date: "@ + d,
        trim(d) == d,
        forall|j: int| 0 <= j < i ==> !has_key(#[trigger] lines_of(prev)[j], "date"@),
    ensures
        date_for(prev, now) == d,
{
    reveal_strlit("date: ");
    reveal_strlit("date");
    assert("date: "@ + d =~= "date"@ + seq![':', ' '] + d);
    assert(forall|j: int| 0 <= j < "date"@.len() ==> "date"@[j] != ':');
    assert(trim("date"@) == "date"@) by {
        lemma_trim_fixed("date"@);
    }
    lemma_key_line("date"@, d);
    lemma_key_found(lines_of(prev), "date"@, i);
    assert(prev.len() > 0) by {
        if prev.len() == 0 {
            assert(lines_of(prev).len() == 0);
        }
    }
}

} // verus!
