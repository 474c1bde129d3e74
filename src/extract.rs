use vstd::prelude::*;

use crate::text::{
    chars_of, chars_of_all, clean, first_index, first_of, is_first, is_space, is_ws,
    lemma_first_of, lemma_trim_clean, lemma_trim_fixed, lemma_trim_start_shape, no_nl, push_all,
    rows, same_chars, string_of, trim, trim_range, trim_start, views,
};

verus! {

/// A line holds a colon and the text before its first colon, trimmed, is `key`.
pub open spec fn has_key(line: Seq<char>, key: Seq<char>) -> bool {
    first_of(line, ':') >= 0 && trim(line.subrange(0, first_of(line, ':'))) == key
}

/// The text after the first colon of a line, trimmed.
pub open spec fn value_of(line: Seq<char>) -> Seq<char> {
    trim(line.subrange(first_of(line, ':') + 1, line.len() as int))
}

/// The value of the first line whose key is `key`; empty where no line has it.
pub open spec fn key_value(lines: Seq<Seq<char>>, key: Seq<char>) -> Seq<char>
    decreases lines.len(),
{
    if lines.len() == 0 {
        seq![]
    } else if has_key(lines[0], key) {
        value_of(lines[0])
    } else {
        key_value(lines.drop_first(), key)
    }
}

/// Where line `i` is the first to carry `key`, its value is what is found.
pub proof fn lemma_key_found(lines: Seq<Seq<char>>, key: Seq<char>, i: int)
    requires
        0 <= i < lines.len(),
        has_key(lines[i], key),
        forall|j: int| 0 <= j < i ==> !has_key(#[trigger] lines[j], key),
    ensures
        key_value(lines, key) == value_of(lines[i]),
    decreases i,
{
    if i > 0 {
        assert(!has_key(lines[0], key));
        let rest = lines.drop_first();
        assert forall|j: int| 0 <= j < i - 1 implies !has_key(#[trigger] rest[j], key) by {
            assert(rest[j] == lines[j + 1]);
        }
        lemma_key_found(rest, key, i - 1);
    }
}

/// Where no line carries `key`, the empty text is found.
pub proof fn lemma_key_absent(lines: Seq<Seq<char>>, key: Seq<char>)
    requires
        forall|j: int| 0 <= j < lines.len() ==> !has_key(#[trigger] lines[j], key),
    ensures
        key_value(lines, key) == Seq::<char>::empty(),
    decreases lines.len(),
{
    if lines.len() > 0 {
        let rest = lines.drop_first();
        assert forall|j: int| 0 <= j < rest.len() implies !has_key(#[trigger] rest[j], key) by {
            assert(rest[j] == lines[j + 1]);
        }
        lemma_key_absent(rest, key);
    }
}

/// A line written `key: value`, with a key free of colons and both parts
/// trimmed, carries `key` with the value `value`.
pub proof fn lemma_key_line(key: Seq<char>, value: Seq<char>)
    requires
        forall|j: int| 0 <= j < key.len() ==> key[j] != ':',
        trim(key) == key,
        trim(value) == value,
    ensures
        has_key(key + seq![':', ' '] + value, key),
        value_of(key + seq![':', ' '] + value) == value,
{
    let line = key + seq![':', ' '] + value;
    assert(is_first(line, ':', key.len() as int));
    lemma_first_of(line, ':', key.len() as int);
    assert(line.subrange(0, key.len() as int) =~= key);
    let after = line.subrange(key.len() as int + 1, line.len() as int);
    assert(after =~= seq![' '] + value);
    assert(after.drop_first() =~= value);
    assert(trim_start(after) == trim_start(value));
}

/// What `key_value` finds among lines without line breaks is clean.
pub proof fn lemma_key_value_clean(lines: Seq<Seq<char>>, key: Seq<char>)
    requires
        forall|i: int| 0 <= i < lines.len() ==> no_nl(#[trigger] lines[i]),
    ensures
        clean(key_value(lines, key)),
    decreases lines.len(),
{
    if lines.len() == 0 {
        assert(trim(Seq::<char>::empty()) =~= Seq::<char>::empty());
    } else if has_key(lines[0], key) {
        let l = lines[0];
        assert(no_nl(l));
        let part = l.subrange(first_of(l, ':') + 1, l.len() as int);
        assert(no_nl(part)) by {
            assert forall|i: int| 0 <= i < part.len() implies part[i] != '\n' by {
                assert(part[i] == l[first_of(l, ':') + 1 + i]);
            }
        }
        lemma_trim_clean(part);
    } else {
        let rest = lines.drop_first();
        assert forall|i: int| 0 <= i < rest.len() implies no_nl(#[trigger] rest[i]) by {
            assert(rest[i] == lines[i + 1]);
        }
        lemma_key_value_clean(rest, key);
    }
}

/// `skip_hashes` keeps a text free of line breaks.
proof fn lemma_skip_hashes_no_nl(s: Seq<char>)
    requires
        no_nl(s),
    ensures
        no_nl(skip_hashes(s)),
    decreases s.len(),
{
    if s.len() > 0 && s[0] == '#' {
        assert(no_nl(s.drop_first())) by {
            assert forall|i: int| 0 <= i < s.len() - 1 implies s.drop_first()[i] != '\n' by {
                assert(s.drop_first()[i] == s[i + 1]);
            }
        }
        lemma_skip_hashes_no_nl(s.drop_first());
    }
}

/// The pieces of a text free of line breaks are free of them.
proof fn lemma_split_spaces_no_nl(s: Seq<char>)
    requires
        no_nl(s),
    ensures
        forall|i: int|
            0 <= i < split_spaces(s).0.len() ==> no_nl(#[trigger] split_spaces(s).0[i]),
        no_nl(split_spaces(s).1),
    decreases s.len(),
{
    if s.len() > 0 {
        assert(no_nl(s.drop_last())) by {
            assert forall|i: int| 0 <= i < s.len() - 1 implies s.drop_last()[i] != '\n' by {
                assert(s.drop_last()[i] == s[i]);
            }
        }
        lemma_split_spaces_no_nl(s.drop_last());
        let (d, o) = split_spaces(s.drop_last());
        if s.last() == ' ' {
            assert forall|i: int| 0 <= i < d.push(o).len() implies no_nl(#[trigger] d.push(o)[i]) by {
                if i < d.len() {
                    assert(d.push(o)[i] == d[i]);
                }
            }
        } else {
            assert forall|i: int| 0 <= i < o.push(s.last()).len() implies o.push(s.last())[i]
                != '\n' by {
                if i < o.len() {
                    assert(o.push(s.last())[i] == o[i]);
                }
            }
        }
    }
}

/// Joining pieces free of line breaks gives a text free of them.
proof fn lemma_join_words_no_nl(ps: Seq<Seq<char>>)
    requires
        forall|i: int| 0 <= i < ps.len() ==> no_nl(#[trigger] ps[i]),
    ensures
        no_nl(join_words(ps)),
    decreases ps.len(),
{
    if ps.len() > 0 {
        let q = ps.drop_last();
        assert forall|i: int| 0 <= i < q.len() implies no_nl(#[trigger] q[i]) by {
            assert(q[i] == ps[i]);
        }
        lemma_join_words_no_nl(q);
        assert(no_nl(ps[ps.len() - 1]));
        lemma_trim_clean(ps.last());
        let p = join_words(q);
        let t = trim(ps.last());
        if t.len() > 0 && p.len() > 0 {
            let r = p + seq![' '] + t;
            assert forall|i: int| 0 <= i < r.len() implies r[i] != '\n' by {
                if i < p.len() {
                    assert(r[i] == p[i]);
                } else if i > p.len() {
                    assert(r[i] == t[i - p.len() - 1]);
                }
            }
        }
    }
}

/// A title found among lines free of line breaks holds no line break.
pub proof fn lemma_title_no_nl(lines: Seq<Seq<char>>)
    requires
        forall|i: int| 0 <= i < lines.len() ==> no_nl(#[trigger] lines[i]),
    ensures
        no_nl(title_of(lines)),
    decreases lines.len(),
{
    if lines.len() > 0 {
        if is_heading(lines[0]) && !hashes_only(lines[0]) && heading_text(lines[0]).len() > 0 {
            let l = lines[0];
            assert(no_nl(l));
            lemma_trim_start_shape(l);
            let a = trim_start(l);
            assert(no_nl(a)) by {
                assert forall|i: int| 0 <= i < a.len() implies a[i] != '\n' by {
                    assert(a[i] == l[l.len() - a.len() + i]);
                }
            }
            lemma_skip_hashes_no_nl(a);
            let r = skip_hashes(a);
            lemma_split_spaces_no_nl(r);
            let (d, o) = split_spaces(r);
            assert forall|i: int| 0 <= i < d.push(o).len() implies no_nl(#[trigger] d.push(o)[i]) by {
                if i < d.len() {
                    assert(d.push(o)[i] == d[i]);
                }
            }
            lemma_join_words_no_nl(d.push(o));
        } else {
            let q = lines.drop_first();
            assert forall|i: int| 0 <= i < q.len() implies no_nl(#[trigger] q[i]) by {
                assert(q[i] == lines[i + 1]);
            }
            lemma_title_no_nl(q);
        }
    }
}

/// Words separated by single spaces, with nothing around them: a space stands
/// only between two characters that are not whitespace, and the text neither
/// starts nor ends with whitespace. Other whitespace may stand inside a word.
pub open spec fn single_spaced(w: Seq<char>) -> bool {
    &&& w.len() > 0
    &&& !is_ws(w[0])
    &&& !is_ws(w.last())
    &&& forall|i: int|
        0 <= i < w.len() && #[trigger] w[i] == ' ' ==> 0 < i && i + 1 < w.len() && !is_ws(w[i - 1])
            && !is_ws(w[i + 1])
}

/// `k` hash characters.
pub open spec fn hashes(k: nat) -> Seq<char> {
    Seq::new(k, |i: int| '#')
}

/// Splitting after a finished piece goes on as from the start.
proof fn lemma_split_spaces_append(p: Seq<char>, y: Seq<char>)
    requires
        split_spaces(p).1.len() == 0,
    ensures
        split_spaces(p + y) == (split_spaces(p).0 + split_spaces(y).0, split_spaces(y).1),
    decreases y.len(),
{
    if y.len() == 0 {
        assert(p + y =~= p);
        assert(split_spaces(p).0 + split_spaces(y).0 =~= split_spaces(p).0);
    } else {
        lemma_split_spaces_append(p, y.drop_last());
        assert((p + y).drop_last() =~= p + y.drop_last());
        assert((p + y).last() == y.last());
        let (d, o) = split_spaces(y.drop_last());
        if y.last() == ' ' {
            assert(split_spaces(p).0 + d.push(o) =~= (split_spaces(p).0 + d).push(o));
        }
    }
}

/// An empty first piece adds nothing.
proof fn lemma_join_words_empty_first(ps: Seq<Seq<char>>)
    ensures
        join_words(seq![Seq::<char>::empty()] + ps) == join_words(ps),
    decreases ps.len(),
{
    let e = seq![Seq::<char>::empty()];
    if ps.len() == 0 {
        assert(e + ps =~= e);
        assert(e.drop_last() =~= Seq::<Seq<char>>::empty());
        assert(e.last() == Seq::<char>::empty());
        assert(trim(Seq::<char>::empty()) =~= Seq::<char>::empty());
        assert(join_words(Seq::<Seq<char>>::empty()) == Seq::<char>::empty());
        assert(join_words(e) == join_words(e.drop_last()));
    } else {
        lemma_join_words_empty_first(ps.drop_last());
        assert((e + ps).drop_last() =~= e + ps.drop_last());
        assert((e + ps).last() == ps.last());
    }
}

/// Reading single-spaced words up to `m`: after a space, the words before it;
/// else the words before the open piece, a space, and the open piece, which
/// starts with a word's first character and ends with the last one read.
proof fn lemma_words_prefix(w: Seq<char>, m: int)
    requires
        single_spaced(w),
        1 <= m <= w.len(),
    ensures
        ({
            let (d, o) = split_spaces(w.subrange(0, m));
            let j = join_words(d);
            if w[m - 1] == ' ' {
                o.len() == 0 && j == w.subrange(0, m - 1) && j.len() > 0
            } else {
                &&& o.len() > 0
                &&& !is_ws(o[0])
                &&& o.last() == w[m - 1]
                &&& (if j.len() == 0 {
                    o == w.subrange(0, m)
                } else {
                    j + seq![' '] + o == w.subrange(0, m)
                })
            }
        }),
    decreases m,
{
    let u = w.subrange(0, m);
    assert(u.drop_last() =~= w.subrange(0, m - 1));
    assert(u.last() == w[m - 1]);
    if m == 1 {
        assert(w[0] != ' ');
        assert(w.subrange(0, 0) =~= Seq::<char>::empty());
        assert(Seq::<char>::empty().push(w[0]) =~= u);
    } else {
        lemma_words_prefix(w, m - 1);
        let (d, o) = split_spaces(w.subrange(0, m - 1));
        let j = join_words(d);
        let c = w[m - 1];
        if c == ' ' {
            assert(w[m - 2] != ' ' && !is_ws(w[m - 2]));
            lemma_trim_fixed(o);
            assert(d.push(o).drop_last() =~= d);
            assert(d.push(o).last() == o);
            assert(w.subrange(0, m - 1) == u.drop_last());
        } else if w[m - 2] == ' ' {
            assert(!is_ws(c));
            assert(j + seq![' '] + seq![c] =~= u);
            assert(Seq::<char>::empty().push(c) =~= seq![c]);
        } else {
            if j.len() == 0 {
                assert(o.push(c) =~= u);
            } else {
                assert(j + seq![' '] + o.push(c) =~= u);
            }
        }
    }
}

/// Dropping `k` hashes before a text that does not start with `#`.
proof fn lemma_skip_hashes(k: nat, rest: Seq<char>)
    requires
        rest.len() == 0 || rest[0] != '#',
    ensures
        skip_hashes(hashes(k) + rest) == rest,
    decreases k,
{
    if k == 0 {
        assert(hashes(k) + rest =~= rest);
    } else {
        assert((hashes(k) + rest).drop_first() =~= hashes((k - 1) as nat) + rest);
        lemma_skip_hashes((k - 1) as nat, rest);
    }
}

/// A heading line `#...# words`: one or more `#`, a space, then single-spaced
/// words holding some character other than `#` (a line of hashes and
/// whitespace only is skipped). Its text is those words exactly, the remainder
/// after the hashes and the space, non-ASCII text and whitespace inside a word
/// included.
pub proof fn lemma_heading_words(k: nat, w: Seq<char>)
    requires
        k >= 1,
        single_spaced(w),
        exists|i: int| 0 <= i < w.len() && w[i] != '#' && !is_ws(#[trigger] w[i]),
    ensures
        is_heading(hashes(k) + seq![' '] + w),
        heading_text(hashes(k) + seq![' '] + w) == w,
        title_of(seq![hashes(k) + seq![' '] + w]) == w,
{
    let line = hashes(k) + seq![' '] + w;
    assert(line[0] == '#');
    assert(trim_start(line) == line);
    let rest = seq![' '] + w;
    assert(line =~= hashes(k) + rest);
    lemma_skip_hashes(k, rest);
    let sp = seq![' '];
    assert(sp.drop_last() =~= Seq::<char>::empty());
    assert(split_spaces(sp.drop_last()) == (Seq::<Seq<char>>::empty(), Seq::<char>::empty()));
    assert(Seq::<Seq<char>>::empty().push(Seq::<char>::empty()) =~= seq![Seq::<char>::empty()]);
    assert(split_spaces(sp) == (seq![Seq::<char>::empty()], Seq::<char>::empty()));
    lemma_split_spaces_append(sp, w);
    let (d, o) = split_spaces(w);
    lemma_words_prefix(w, w.len() as int);
    assert(w.subrange(0, w.len() as int) =~= w);
    lemma_trim_fixed(o);
    assert(d.push(o).drop_last() =~= d);
    assert(d.push(o).last() == o);
    assert(seq![Seq::<char>::empty()] + d.push(o) =~= split_spaces(rest).0.push(
        split_spaces(rest).1,
    ));
    lemma_join_words_empty_first(d.push(o));
    assert(seq![line][0] == line);
    let i = choose|i: int| 0 <= i < w.len() && w[i] != '#' && !is_ws(#[trigger] w[i]);
    assert(line[k + 1 + i] == w[i]);
    assert(!hashes_only(line));
}

/// Looks `key` up in `lines`.
pub(crate) fn key_in(lines: &Vec<Vec<char>>, key: &Vec<char>) -> (r: Vec<char>)
    ensures
        r@ == key_value(rows(lines@), key@),
{
    let ghost all = rows(lines@);
    assert(all.skip(0) =~= all);
    let mut i: usize = 0;
    while i < lines.len()
        invariant
            i <= lines@.len(),
            all == rows(lines@),
            key_value(all, key@) == key_value(all.skip(i as int), key@),
        decreases lines@.len() - i,
    {
        let line = &lines[i];
        let n = line.len();
        assert(all.skip(i as int)[0] == line@);
        assert(all.skip(i as int).drop_first() =~= all.skip(i + 1));
        match first_index(line, ':') {
            Some(pos) => {
                let k = trim_range(line, 0, pos);
                if same_chars(&k, key) {
                    return trim_range(line, pos + 1, n);
                }
            },
            None => {},
        }
        i = i + 1;
    }
    assert(all.skip(i as int).len() == 0);
    Vec::new()
}

/// The value of the first line of the form `key: value`, trimmed; empty where
/// there is none.
pub fn try_key(lines: &[&str], key: &str) -> (r: String)
    ensures
        r@ == key_value(views(lines@), key@),
{
    let ls = chars_of_all(lines);
    assert(rows(ls@) =~= views(lines@));
    let k = chars_of(key);
    let v = key_in(&ls, &k);
    string_of(&v)
}

/// Drops leading `#` characters.
pub open spec fn skip_hashes(s: Seq<char>) -> Seq<char>
    decreases s.len(),
{
    if s.len() > 0 && s[0] == '#' {
        skip_hashes(s.drop_first())
    } else {
        s
    }
}

/// Reads `s` from the left: the pieces already ended by a space, and the
/// piece still open.
pub open spec fn split_spaces(s: Seq<char>) -> (Seq<Seq<char>>, Seq<char>)
    decreases s.len(),
{
    if s.len() == 0 {
        (seq![], seq![])
    } else {
        let (done, open) = split_spaces(s.drop_last());
        if s.last() == ' ' {
            (done.push(open), seq![])
        } else {
            (done, open.push(s.last()))
        }
    }
}

/// The pieces trimmed, the empty ones dropped, the rest joined by single spaces.
pub open spec fn join_words(ps: Seq<Seq<char>>) -> Seq<char>
    decreases ps.len(),
{
    if ps.len() == 0 {
        seq![]
    } else {
        let p = join_words(ps.drop_last());
        let t = trim(ps.last());
        if t.len() == 0 {
            p
        } else if p.len() == 0 {
            t
        } else {
            p + seq![' '] + t
        }
    }
}

/// The words of `s`: its pieces between spaces, each trimmed, the empty ones
/// dropped, joined by single spaces.
pub open spec fn words_of(s: Seq<char>) -> Seq<char> {
    let (done, open) = split_spaces(s);
    join_words(done.push(open))
}

/// A heading line: its first non-whitespace character is `#`.
pub open spec fn is_heading(line: Seq<char>) -> bool {
    trim_start(line).len() > 0 && trim_start(line)[0] == '#'
}

/// The text of a heading: the words after the run of `#`, joined by single
/// spaces.
pub open spec fn heading_text(line: Seq<char>) -> Seq<char> {
    words_of(skip_hashes(trim_start(line)))
}

/// Every character of a line is `#` or whitespace.
pub open spec fn hashes_only(line: Seq<char>) -> bool {
    forall|i: int| 0 <= i < line.len() ==> #[trigger] line[i] == '#' || is_ws(line[i])
}

/// The text of the first heading line that holds more than hashes and
/// whitespace and whose text is not empty; empty where there is none.
pub open spec fn title_of(lines: Seq<Seq<char>>) -> Seq<char>
    decreases lines.len(),
{
    if lines.len() == 0 {
        seq![]
    } else if is_heading(lines[0]) && !hashes_only(lines[0]) && heading_text(lines[0]).len() > 0 {
        heading_text(lines[0])
    } else {
        title_of(lines.drop_first())
    }
}

/// Adds a trimmed piece to the words read so far.
fn add_word(out: &mut Vec<char>, t: &Vec<char>)
    ensures
        final(out)@ == if t@.len() == 0 {
            old(out)@
        } else if old(out)@.len() == 0 {
            t@
        } else {
            old(out)@ + seq![' '] + t@
        },
{
    if t.len() > 0 {
        if out.len() > 0 {
            out.push(' ');
        }
        push_all(out, t);
        proof {
            if old(out)@.len() == 0 {
                assert(old(out)@ + t@ =~= t@);
            }
        }
    }
}

/// The text of a line if it is a heading, else `None`.
fn heading_in(line: &Vec<char>) -> (r: Option<Vec<char>>)
    ensures
        r is Some <==> is_heading(line@),
        r is Some ==> r->0@ == heading_text(line@),
{
    let n = line.len();
    let mut i: usize = 0;
    assert(line@.subrange(0, n as int) =~= line@);
    while i < n && is_space(line[i])
        invariant
            n == line@.len(),
            i <= n,
            trim_start(line@) == trim_start(line@.subrange(i as int, n as int)),
        decreases n - i,
    {
        assert(line@.subrange(i as int, n as int).drop_first() =~= line@.subrange(
            i + 1,
            n as int,
        ));
        i = i + 1;
    }
    assert(line@.subrange(0, n as int) =~= line@);
    assert(trim_start(line@) == line@.subrange(i as int, n as int));
    if i == n || line[i] != '#' {
        return None;
    }
    while i < n && line[i] == '#'
        invariant
            n == line@.len(),
            i <= n,
            skip_hashes(trim_start(line@)) == skip_hashes(line@.subrange(i as int, n as int)),
        decreases n - i,
    {
        assert(line@.subrange(i as int, n as int).drop_first() =~= line@.subrange(
            i + 1,
            n as int,
        ));
        i = i + 1;
    }
    let ghost rest = line@.subrange(i as int, n as int);
    assert(skip_hashes(trim_start(line@)) == rest);
    let start0 = i;
    let mut start = i;
    let mut out: Vec<char> = Vec::new();
    assert(line@.subrange(start0 as int, i as int) =~= Seq::<char>::empty());
    while i < n
        invariant
            n == line@.len(),
            start0 <= start <= i <= n,
            rest == line@.subrange(start0 as int, n as int),
            out@ == join_words(split_spaces(line@.subrange(start0 as int, i as int)).0),
            split_spaces(line@.subrange(start0 as int, i as int)).1 == line@.subrange(
                start as int,
                i as int,
            ),
        decreases n - i,
    {
        let ghost before = line@.subrange(start0 as int, i as int);
        let ghost after = line@.subrange(start0 as int, i + 1);
        assert(after.drop_last() =~= before);
        assert(after.last() == line@[i as int]);
        if line[i] == ' ' {
            let ghost d = split_spaces(before).0;
            let t = trim_range(line, start, i);
            add_word(&mut out, &t);
            assert(d.push(line@.subrange(start as int, i as int)).drop_last() =~= d);
            start = i + 1;
            assert(line@.subrange(start as int, i + 1) =~= Seq::<char>::empty());
        } else {
            assert(line@.subrange(start as int, i + 1) =~= line@.subrange(
                start as int,
                i as int,
            ).push(line@[i as int]));
        }
        i = i + 1;
    }
    let ghost d = split_spaces(rest).0;
    let t = trim_range(line, start, n);
    add_word(&mut out, &t);
    assert(d.push(line@.subrange(start as int, n as int)).drop_last() =~= d);
    Some(out)
}

/// Whether every character of a line is `#` or whitespace.
fn only_hashes(line: &Vec<char>) -> (r: bool)
    ensures
        r == hashes_only(line@),
{
    let mut i: usize = 0;
    while i < line.len()
        invariant
            i <= line@.len(),
            forall|j: int| 0 <= j < i ==> #[trigger] line@[j] == '#' || is_ws(line@[j]),
        decreases line@.len() - i,
    {
        if line[i] != '#' && !is_space(line[i]) {
            return false;
        }
        i = i + 1;
    }
    true
}

/// Finds the title among `lines`.
pub(crate) fn title_in(lines: &Vec<Vec<char>>) -> (r: Vec<char>)
    ensures
        r@ == title_of(rows(lines@)),
{
    let ghost all = rows(lines@);
    assert(all.skip(0) =~= all);
    let mut i: usize = 0;
    while i < lines.len()
        invariant
            i <= lines@.len(),
            all == rows(lines@),
            title_of(all) == title_of(all.skip(i as int)),
        decreases lines@.len() - i,
    {
        assert(all.skip(i as int)[0] == lines@[i as int]@);
        assert(all.skip(i as int).drop_first() =~= all.skip(i + 1));
        match heading_in(&lines[i]) {
            Some(t) => {
                if t.len() > 0 && !only_hashes(&lines[i]) {
                    return t;
                }
            },
            None => {},
        }
        i = i + 1;
    }
    assert(all.skip(i as int).len() == 0);
    Vec::new()
}

/// The text of the first heading line (`#`, `##`, ...) that holds more than
/// hashes and whitespace: after the run of `#`, its pieces between spaces,
/// trimmed, the empty ones dropped, joined by single spaces; empty where there
/// is none.
pub fn try_title(lines: &[&str]) -> (r: String)
    ensures
        r@ == title_of(views(lines@)),
{
    let ls = chars_of_all(lines);
    assert(rows(ls@) =~= views(lines@));
    let t = title_in(&ls);
    string_of(&t)
}

} // verus!
