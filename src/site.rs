use vstd::prelude::*;

use crate::extract::value_of;
use crate::text::{
    chars_of, chars_of_all, contains_chars, first_index, first_of, has_sub, lines_of, push_all,
    rows, same_chars, split_lines, string_of, trim, trim_range, views,
};

verus! {

/// The sites a run publishes to: site names, each with the root directory of its
/// blog, in the order they were registered.
pub struct Conf {
    sites: Vec<(String, String)>,
}

/// `i` is the first position of a site named `name`.
pub open spec fn is_site_at(s: Seq<(Seq<char>, Seq<char>)>, name: Seq<char>, i: int) -> bool {
    0 <= i < s.len() && s[i].0 == name && forall|j: int| 0 <= j < i ==> s[j].0 != name
}

/// The position of the site named `name`, or -1 where there is none.
pub open spec fn find_site(s: Seq<(Seq<char>, Seq<char>)>, name: Seq<char>) -> int {
    if exists|i: int| is_site_at(s, name, i) {
        choose|i: int| is_site_at(s, name, i)
    } else {
        -1
    }
}

/// No two sites share a name.
pub open spec fn names_unique(s: Seq<(Seq<char>, Seq<char>)>) -> bool {
    forall|i: int, j: int| 0 <= i < j < s.len() ==> s[i].0 != s[j].0
}

/// The registry after registering `name` at `path`: an existing site of that
/// name gets the new path in its place; else the site is added at the end.
pub open spec fn with_site(s: Seq<(Seq<char>, Seq<char>)>, name: Seq<char>, path: Seq<char>) -> Seq<
    (Seq<char>, Seq<char>),
> {
    if find_site(s, name) >= 0 {
        s.update(find_site(s, name), (name, path))
    } else {
        s.push((name, path))
    }
}

/// The marker that names a site in a note: `[[name]]`.
pub open spec fn marker(name: Seq<char>) -> Seq<char> {
    seq!['[', '['] + name + seq![']', ']']
}

/// Some line holds the marker of `name`.
pub open spec fn marked(lines: Seq<Seq<char>>, name: Seq<char>) -> bool {
    exists|j: int| 0 <= j < lines.len() && has_sub(#[trigger] lines[j], marker(name))
}

/// The first registered site whose marker some line holds; empty where none does.
pub open spec fn site_of(s: Seq<(Seq<char>, Seq<char>)>, lines: Seq<Seq<char>>) -> Seq<char>
    decreases s.len(),
{
    if s.len() == 0 {
        seq![]
    } else if marked(lines, s[0].0) {
        s[0].0
    } else {
        site_of(s.drop_first(), lines)
    }
}

/// The name a configuration line registers: the trimmed text before its first
/// colon.
pub open spec fn conf_name(line: Seq<char>) -> Seq<char> {
    trim(line.subrange(0, first_of(line, ':')))
}

/// The registry after the configuration lines `name: path`, in order. A line
/// without a colon, or with an empty name, registers nothing.
pub open spec fn with_lines(s: Seq<(Seq<char>, Seq<char>)>, lines: Seq<Seq<char>>) -> Seq<
    (Seq<char>, Seq<char>),
>
    decreases lines.len(),
{
    if lines.len() == 0 {
        s
    } else {
        let before = with_lines(s, lines.drop_last());
        let l = lines.last();
        if first_of(l, ':') >= 0 && conf_name(l).len() > 0 {
            with_site(before, conf_name(l), value_of(l))
        } else {
            before
        }
    }
}

/// The first occurrence is unique, so `find_site` is it.
pub proof fn lemma_find_site(s: Seq<(Seq<char>, Seq<char>)>, name: Seq<char>, i: int)
    requires
        is_site_at(s, name, i),
    ensures
        find_site(s, name) == i,
{
    let k = choose|k: int| is_site_at(s, name, k);
    assert(is_site_at(s, name, k));
    if k < i {
        assert(s[k].0 != name);
    } else if k > i {
        assert(s[i].0 != name);
    }
}

impl View for Conf {
    type V = Seq<(Seq<char>, Seq<char>)>;

    closed spec fn view(&self) -> Self::V {
        self.sites@.map_values(|p: (String, String)| (p.0@, p.1@))
    }
}

impl Conf {
    /// Well-formed: site names are unique.
    pub open spec fn wf(&self) -> bool {
        names_unique(self@)
    }

    /// A registry with no site.
    pub fn new() -> (r: Conf)
        ensures
            r.wf(),
            r@ == Seq::<(Seq<char>, Seq<char>)>::empty(),
    {
        let r = Conf { sites: Vec::new() };
        assert(r@ =~= Seq::<(Seq<char>, Seq<char>)>::empty());
        r
    }

    /// The number of sites.
    pub fn len(&self) -> (r: usize)
        ensures
            r == self@.len(),
    {
        self.sites.len()
    }

    /// Whether no site is registered.
    pub fn is_empty(&self) -> (r: bool)
        ensures
            r == (self@.len() == 0),
    {
        self.sites.len() == 0
    }

    /// The position of the site named `name`.
    fn position(&self, name: &Vec<char>) -> (r: Option<usize>)
        ensures
            r is Some ==> find_site(self@, name@) == r->0 as int,
            r is None ==> find_site(self@, name@) == -1,
    {
        let mut i: usize = 0;
        while i < self.sites.len()
            invariant
                i <= self@.len(),
                forall|j: int| 0 <= j < i ==> self@[j].0 != name@,
            decreases self@.len() - i,
        {
            let n = chars_of(self.sites[i].0.as_str());
            if same_chars(&n, name) {
                proof {
                    lemma_find_site(self@, name@, i as int);
                }
                return Some(i);
            }
            i = i + 1;
        }
        None
    }

    /// Registers `name` at `path`, replacing the path of a site of that name.
    pub fn insert(&mut self, name: String, path: String)
        requires
            old(self).wf(),
        ensures
            final(self).wf(),
            final(self)@ == with_site(old(self)@, name@, path@),
    {
        let key = chars_of(name.as_str());
        match self.position(&key) {
            Some(i) => {
                self.sites.set(i, (name, path));
                assert(self@ =~= old(self)@.update(i as int, (name@, path@)));
            },
            None => {
                let ghost before = self@;
                self.sites.push((name, path));
                assert(self@ =~= before.push((name@, path@)));
                assert forall|j: int| 0 <= j < before.len() implies before[j].0 != name@ by {
                    if before[j].0 == name@ {
                        lemma_first_site_exists(before, name@, j);
                    }
                }
            },
        }
    }

    /// Registers the sites of a configuration text, one `name: path` per line.
    pub fn add_lines(&mut self, text: &str)
        requires
            old(self).wf(),
        ensures
            final(self).wf(),
            final(self)@ == with_lines(old(self)@, lines_of(text@)),
    {
        let lines = split_lines(&chars_of(text));
        let ghost ls = rows(lines@);
        let mut i: usize = 0;
        while i < lines.len()
            invariant
                i <= lines@.len(),
                ls == rows(lines@),
                ls == lines_of(text@),
                self.wf(),
                self@ == with_lines(old(self)@, ls.subrange(0, i as int)),
            decreases lines@.len() - i,
        {
            let ghost next = ls.subrange(0, i + 1);
            assert(next.drop_last() =~= ls.subrange(0, i as int));
            assert(next.last() == lines@[i as int]@);
            let line = &lines[i];
            let n = line.len();
            match first_index(line, ':') {
                Some(pos) => {
                    let name = trim_range(line, 0, pos);
                    if name.len() > 0 {
                        let path = trim_range(line, pos + 1, n);
                        self.insert(string_of(&name), string_of(&path));
                    }
                },
                None => {},
            }
            i = i + 1;
        }
        assert(ls.subrange(0, i as int) =~= ls);
    }

    /// The root directory of the site named `name`.
    pub fn get(&self, name: &str) -> (r: Option<String>)
        ensures
            r is Some <==> find_site(self@, name@) >= 0,
            r is Some ==> r->0@ == self@[find_site(self@, name@)].1,
    {
        let key = chars_of(name);
        match self.position(&key) {
            Some(i) => Some(self.sites[i].1.clone()),
            None => None,
        }
    }

    /// The registered sites, in order.
    pub fn entries(&self) -> (r: Vec<(String, String)>)
        ensures
            r@.map_values(|p: (String, String)| (p.0@, p.1@)) == self@,
    {
        let mut r: Vec<(String, String)> = Vec::new();
        let mut i: usize = 0;
        while i < self.sites.len()
            invariant
                i <= self@.len(),
                r@.map_values(|p: (String, String)| (p.0@, p.1@)) == self@.subrange(0, i as int),
            decreases self@.len() - i,
        {
            let ghost before = r@;
            let p = (self.sites[i].0.clone(), self.sites[i].1.clone());
            r.push(p);
            assert(r@ == before.push(p));
            assert(r@.map_values(|p: (String, String)| (p.0@, p.1@)) =~= before.map_values(
                |p: (String, String)| (p.0@, p.1@),
            ).push(self@[i as int]));
            assert(r@.map_values(|p: (String, String)| (p.0@, p.1@)) =~= self@.subrange(
                0,
                i + 1,
            ));
            i = i + 1;
        }
        assert(self@.subrange(0, self@.len() as int) =~= self@);
        r
    }
}

/// Finds the site whose marker a line holds.
pub(crate) fn site_in(sites: &Conf, lines: &Vec<Vec<char>>) -> (r: Vec<char>)
    ensures
        r@ == site_of(sites@, rows(lines@)),
{
    let ghost all = sites@;
    let ghost ls = rows(lines@);
    assert(all.skip(0) =~= all);
    let mut i: usize = 0;
    while i < sites.sites.len()
        invariant
            i <= all.len(),
            all == sites@,
            ls == rows(lines@),
            site_of(all, ls) == site_of(all.skip(i as int), ls),
        decreases all.len() - i,
    {
        assert(all.skip(i as int)[0] == all[i as int]);
        assert(all.skip(i as int).drop_first() =~= all.skip(i + 1));
        let name = chars_of(sites.sites[i].0.as_str());
        assert(all[i as int].0 == name@);
        let mut m: Vec<char> = vec!['[', '['];
        push_all(&mut m, &name);
        push_all(&mut m, &vec![']', ']']);
        assert(m@ =~= marker(name@));
        let mut j: usize = 0;
        while j < lines.len()
            invariant
                j <= ls.len(),
                i < all.len(),
                all == sites@,
                ls == rows(lines@),
                all[i as int].0 == name@,
                all.skip(i as int)[0] == all[i as int],
                site_of(all, ls) == site_of(all.skip(i as int), ls),
                m@ == marker(name@),
                forall|k: int| 0 <= k < j ==> !has_sub(#[trigger] ls[k], m@),
            decreases ls.len() - j,
        {
            if contains_chars(&lines[j], &m) {
                assert(has_sub(ls[j as int], m@));
                assert(marked(ls, name@));
                return name;
            }
            j = j + 1;
        }
        i = i + 1;
    }
    assert(all.skip(i as int).len() == 0);
    Vec::new()
}

/// The first registered site, in the registry's order, whose marker `[[name]]`
/// some line holds; empty where none does.
pub fn try_site(sites: &Conf, lines: &[&str]) -> (r: String)
    ensures
        r@ == site_of(sites@, views(lines@)),
{
    let ls = chars_of_all(lines);
    assert(rows(ls@) =~= views(lines@));
    let s = site_in(sites, &ls);
    string_of(&s)
}

/// Where `name` occurs at `j`, some first occurrence exists.
proof fn lemma_first_site_exists(s: Seq<(Seq<char>, Seq<char>)>, name: Seq<char>, j: int)
    requires
        0 <= j < s.len(),
        s[j].0 == name,
    ensures
        exists|k: int| is_site_at(s, name, k),
    decreases j,
{
    if forall|m: int| 0 <= m < j ==> s[m].0 != name {
        assert(is_site_at(s, name, j));
    } else {
        let m = choose|m: int| 0 <= m < j && s[m].0 == name;
        lemma_first_site_exists(s, name, m);
    }
}


/// A site that `site_of` finds is registered.
pub proof fn lemma_site_found(s: Seq<(Seq<char>, Seq<char>)>, lines: Seq<Seq<char>>)
    requires
        site_of(s, lines).len() > 0,
    ensures
        exists|i: int| 0 <= i < s.len() && s[i].0 == site_of(s, lines),
        find_site(s, site_of(s, lines)) >= 0,
    decreases s.len(),
{
    let name = site_of(s, lines);
    if marked(lines, s[0].0) {
        assert(s[0].0 == name);
        lemma_first_site_exists(s, name, 0);
    } else {
        let rest = s.drop_first();
        lemma_site_found(rest, lines);
        let i = choose|i: int| 0 <= i < rest.len() && rest[i].0 == site_of(rest, lines);
        assert(s[i + 1].0 == name);
        lemma_first_site_exists(s, name, i + 1);
    }
}

} // verus!
