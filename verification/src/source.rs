//! Where the remote URL of a name comes from: a table that is used up name by
//! name, or a template that serves every name.

use crate::name::{name_of, name_spec};
use crate::text::{lines_of, split_lines, to_chars, views};
use vstd::hash_map::StringHashMap;
use vstd::prelude::*;
use vstd::string::StringExecFns;

verus! {

/// The marker of a template is `{` directly followed by `}`.
pub open spec fn marker_at(t: Seq<char>, i: int) -> bool {
    0 <= i && i + 1 < t.len() && t[i] == '{' && t[i + 1] == '}'
}

/// The template `t` with each marker replaced by `name`, markers taken from
/// left to right.
pub open spec fn fill(t: Seq<char>, name: Seq<char>) -> Seq<char>
    decreases t.len(),
{
    if t.len() == 0 {
        t
    } else if marker_at(t, 0) {
        name + fill(t.skip(2), name)
    } else {
        seq![t[0]] + fill(t.skip(1), name)
    }
}

/// The table that a list of URLs gives: each URL under its name, a later URL
/// taking the place of an earlier one of the same name. A line whose name is
/// empty adds no entry: a name is never empty.
pub open spec fn table_of(lines: Seq<Seq<char>>) -> Map<Seq<char>, Seq<char>>
    decreases lines.len(),
{
    if lines.len() == 0 {
        Map::empty()
    } else if name_spec(lines.last()).len() == 0 {
        table_of(lines.drop_last())
    } else {
        table_of(lines.drop_last()).insert(name_spec(lines.last()), lines.last())
    }
}

/// Whether every name of `m` holds at least one character.
pub open spec fn names_nonempty(m: Map<Seq<char>, Seq<char>>) -> bool {
    forall|k: Seq<char>| #[trigger] m.contains_key(k) ==> k.len() > 0
}

/// The table of a list holds no entry under the empty name, and holds
/// finitely many entries.
pub proof fn lemma_table_of_names(lines: Seq<Seq<char>>)
    ensures
        names_nonempty(table_of(lines)),
        table_of(lines).dom().finite(),
    decreases lines.len(),
{
    if lines.len() > 0 {
        lemma_table_of_names(lines.drop_last());
    }
}

/// What a source is, for its contracts.
pub enum SourceView {
    /// The URLs that are left, by name.
    List(Map<Seq<char>, Seq<char>>),
    /// The pattern.
    Template(Seq<char>),
}

impl SourceView {
    /// The URL that the source gives for `name`, if it gives one.
    pub open spec fn url_for(self, name: Seq<char>) -> Option<Seq<char>> {
        match self {
            SourceView::List(m) => if m.contains_key(name) {
                Some(m[name])
            } else {
                None
            },
            SourceView::Template(t) => Some(fill(t, name)),
        }
    }

    /// The source once `name` was taken from it.
    pub open spec fn without(self, name: Seq<char>) -> SourceView {
        match self {
            SourceView::List(m) => SourceView::List(m.remove(name)),
            SourceView::Template(t) => self,
        }
    }

    /// The source once every name of `names` was taken from it.
    pub open spec fn without_all(self, names: Set<Seq<char>>) -> SourceView {
        match self {
            SourceView::List(m) => SourceView::List(m.remove_keys(names)),
            SourceView::Template(t) => self,
        }
    }

    /// The names that are left to be served once; none for a template.
    pub open spec fn remaining(self) -> Map<Seq<char>, Seq<char>> {
        match self {
            SourceView::List(m) => m,
            SourceView::Template(t) => Map::empty(),
        }
    }
}

/// A table of URLs by name.
pub struct Table {
    urls: StringHashMap<String>,
    names: Vec<String>,
}

impl View for Table {
    type V = Map<Seq<char>, Seq<char>>;

    closed spec fn view(&self) -> Map<Seq<char>, Seq<char>> {
        Map::new(|k: Seq<char>| self.urls@.contains_key(k), |k: Seq<char>| self.urls@[k]@)
    }
}

impl Table {
    /// The table holds finitely many entries, and every name of it is on its
    /// list of names.
    pub closed spec fn wf(&self) -> bool {
        &&& self.urls@.dom().finite()
        &&& forall|k: Seq<char>| #[trigger]
            self.urls@.contains_key(k) ==> exists|i: int|
                0 <= i < self.names@.len() && self.names@[i]@ == k
    }

    /// A well-formed table holds finitely many entries.
    pub proof fn lemma_finite(&self)
        requires
            self.wf(),
        ensures
            self@.dom().finite(),
    {
        assert(self@.dom() =~= self.urls@.dom());
    }

    /// A table without entries.
    pub fn new() -> (t: Table)
        ensures
            t.wf(),
            t@ == Map::<Seq<char>, Seq<char>>::empty(),
    {
        let t = Table { urls: StringHashMap::new(), names: Vec::new() };
        assert(t@ =~= Map::<Seq<char>, Seq<char>>::empty());
        t
    }

    /// Puts `url` under `name`, in place of what was there.
    pub fn insert(&mut self, name: String, url: String)
        requires
            old(self).wf(),
        ensures
            final(self).wf(),
            final(self)@ == old(self)@.insert(name@, url@),
    {
        let ghost key = name@;
        let ghost before = self.names@;
        self.names.push(name.clone());
        self.urls.insert(name, url);
        proof {
            assert forall|k: Seq<char>| #[trigger] self.urls@.contains_key(k) implies exists|
                i: int,
            |
                0 <= i < self.names@.len() && self.names@[i]@ == k by {
                if k == key {
                    assert(self.names@[before.len() as int]@ == k);
                } else {
                    assert(old(self).urls@.contains_key(k));
                    let i = choose|i: int| 0 <= i < before.len() && before[i]@ == k;
                    assert(self.names@[i]@ == k);
                }
            }
            assert(self@ =~= old(self)@.insert(key, url@));
        }
    }

    /// Takes the URL of `name` out of the table, if it holds one.
    pub fn take(&mut self, name: &str) -> (url: Option<String>)
        requires
            old(self).wf(),
        ensures
            final(self).wf(),
            final(self)@ == old(self)@.remove(name@),
            url.is_some() == old(self)@.contains_key(name@),
            url.is_some() ==> url.unwrap()@ == old(self)@[name@],
    {
        let found: Option<String> = match self.urls.get(name) {
            Some(u) => Some(u.clone()),
            None => None,
        };
        self.urls.remove(name);
        proof {
            assert(self@ =~= old(self)@.remove(name@));
            assert forall|k: Seq<char>| #[trigger] self.urls@.contains_key(k) implies exists|
                i: int,
            |
                0 <= i < self.names@.len() && self.names@[i]@ == k by {
                assert(old(self).urls@.contains_key(k));
                let i = choose|i: int|
                    0 <= i < old(self).names@.len() && old(self).names@[i]@ == k;
                assert(self.names@[i]@ == k);
            }
        }
        found
    }

    /// Empties the table into a list of its entries, each name once.
    pub fn drain(self) -> (rest: Vec<(String, String)>)
        requires
            self.wf(),
        ensures
            is_listing(rest@, self@),
    {
        let Table { urls, names } = self;
        let mut urls = urls;
        let mut rest: Vec<(String, String)> = Vec::new();
        let ghost all = self@;
        let mut i: usize = 0;
        while i < names.len()
            invariant
                i <= names@.len(),
                all == self@,
                names == self.names,
                forall|k: Seq<char>| #[trigger]
                    urls@.contains_key(k) ==> all.contains_key(k) && all[k] == urls@[k]@,
                forall|k: Seq<char>| #[trigger]
                    urls@.contains_key(k) ==> exists|j: int|
                        i <= j < names@.len() && names@[j]@ == k,
                forall|k: Seq<char>| #[trigger]
                    all.contains_key(k) ==> urls@.contains_key(k) || exists|j: int|
                        0 <= j < rest@.len() && rest@[j].0@ == k,
                forall|j: int|
                    0 <= j < rest@.len() ==> all.contains_key(#[trigger] rest@[j].0@)
                        && all[rest@[j].0@] == rest@[j].1@ && !urls@.contains_key(rest@[j].0@),
                forall|a: int, b: int|
                    0 <= a < b < rest@.len() ==> #[trigger] rest@[a].0@ != #[trigger] rest@[b].0@,
            decreases names@.len() - i,
        {
            let name: &String = &names[i];
            let found: Option<String> = match urls.get(name.as_str()) {
                Some(u) => Some(u.clone()),
                None => None,
            };
            let ghost urls_before = urls@;
            let ghost rest_before = rest@;
            match found {
                Some(url) => {
                    urls.remove(name.as_str());
                    rest.push((name.clone(), url));
                    proof {
                        let last = rest_before.len() as int;
                        assert(rest@[last].0@ == name@);
                        assert forall|k: Seq<char>| #[trigger] urls@.contains_key(k) implies exists|
                            j: int,
                        |
                            i + 1 <= j < names@.len() && names@[j]@ == k by {
                            assert(urls_before.contains_key(k));
                            let j = choose|j: int| i <= j < names@.len() && names@[j]@ == k;
                            assert(j != i);
                        }
                        assert forall|k: Seq<char>| #[trigger] all.contains_key(k) implies (
                        urls@.contains_key(k) || exists|j: int|
                            0 <= j < rest@.len() && rest@[j].0@ == k) by {
                            if k == name@ {
                                assert(rest@[last].0@ == k);
                            } else if urls_before.contains_key(k) {
                                assert(urls@.contains_key(k));
                            } else {
                                let j = choose|j: int|
                                    0 <= j < rest_before.len() && rest_before[j].0@ == k;
                                assert(rest@[j].0@ == k);
                            }
                        }
                        assert forall|j: int| 0 <= j < rest@.len() implies all.contains_key(
                            #[trigger] rest@[j].0@,
                        ) && all[rest@[j].0@] == rest@[j].1@ && !urls@.contains_key(
                            rest@[j].0@,
                        ) by {
                            if j < last {
                                assert(rest@[j] == rest_before[j]);
                            }
                        }
                        assert forall|a: int, b: int| 0 <= a < b < rest@.len() implies 
                            #[trigger] rest@[a].0@ != #[trigger] rest@[b].0@ by {
                            assert(rest@[a] == rest_before[a]);
                            if b < last {
                                assert(rest@[b] == rest_before[b]);
                            } else {
                                assert(!urls_before.contains_key(rest_before[a].0@));
                            }
                        }
                    }
                },
                None => {
                    proof {
                        assert forall|k: Seq<char>| #[trigger] urls@.contains_key(k) implies exists|
                            j: int,
                        |
                            i + 1 <= j < names@.len() && names@[j]@ == k by {
                            let j = choose|j: int| i <= j < names@.len() && names@[j]@ == k;
                            assert(j != i);
                        }
                    }
                },
            }
            i += 1;
        }
        proof {
            assert forall|k: Seq<char>| #[trigger] all.contains_key(k) implies exists|j: int|
                0 <= j < rest@.len() && rest@[j].0@ == k by {
                assert(!urls@.contains_key(k));
            }
        }
        rest
    }
}

/// Whether `rest` lists the entries of `m`: each entry of the list is one of
/// `m`, each name of `m` is listed, and none is listed twice.
pub open spec fn is_listing(rest: Seq<(String, String)>, m: Map<Seq<char>, Seq<char>>) -> bool {
    &&& forall|j: int|
        0 <= j < rest.len() ==> m.contains_key(#[trigger] rest[j].0@) && m[rest[j].0@]
            == rest[j].1@
    &&& forall|k: Seq<char>| #[trigger]
        m.contains_key(k) ==> exists|j: int| 0 <= j < rest.len() && rest[j].0@ == k
    &&& forall|a: int, b: int|
        0 <= a < b < rest.len() ==> #[trigger] rest[a].0@ != #[trigger] rest[b].0@
}

/// A source of URLs.
pub enum Source {
    /// A table of URLs by name; a name is served once.
    List(Table),
    /// A pattern that serves every name.
    Template(String),
}

impl View for Source {
    type V = SourceView;

    open spec fn view(&self) -> SourceView {
        match self {
            Source::List(t) => SourceView::List(t@),
            Source::Template(p) => SourceView::Template(p@),
        }
    }
}

/// Replaces each marker of `template` by `name`.
pub fn fill_template(template: &str, name: &str) -> (url: String)
    ensures
        url@ == fill(template@, name@),
{
    let v = to_chars(template);
    let n: usize = v.len();
    let mut url = String::new();
    let mut i: usize = 0;
    proof {
        assert(v@.skip(0) =~= template@);
        assert(url@ + fill(template@, name@) =~= fill(template@, name@));
    }
    while i < n
        invariant
            i <= n,
            n == v@.len(),
            v@ == template@,
            fill(template@, name@) == url@ + fill(v@.skip(i as int), name@),
        decreases n - i,
    {
        let ghost rest = v@.skip(i as int);
        let ghost before = url@;
        assert(rest[0] == v@[i as int]);
        if i + 1 < n && v[i] == '{' && v[i + 1] == '}' {
            assert(rest[1] == v@[i + 1]);
            assert(marker_at(rest, 0));
            assert(rest.skip(2) =~= v@.skip(i + 2));
            url.append(name);
            assert(before + (name@ + fill(v@.skip(i + 2), name@)) =~= (before + name@) + fill(
                v@.skip(i + 2),
                name@,
            ));
            i += 2;
        } else {
            assert(!marker_at(rest, 0)) by {
                if i + 1 < n {
                    assert(rest[1] == v@[i + 1]);
                }
            }
            assert(rest.skip(1) =~= v@.skip(i + 1));
            url.push(v[i]);
            assert(before + (seq![v@[i as int]] + fill(v@.skip(i + 1), name@)) =~= before.push(
                v@[i as int],
            ) + fill(v@.skip(i + 1), name@));
            i += 1;
        }
    }
    assert(v@.skip(n as int).len() == 0);
    assert(url@ + Seq::<char>::empty() =~= url@);
    url
}

impl Source {
    /// Every source that a constructor gives is well formed, and stays so.
    pub open spec fn wf(&self) -> bool {
        match self {
            Source::List(t) => t.wf(),
            Source::Template(_) => true,
        }
    }

    /// The table that the list `text` gives, one URL per line, each under
    /// its name. A line that gives no name, such as an empty line or a URL
    /// that ends in `/`, is left out: no entry stands under the empty name.
    pub fn from_list(text: &str) -> (src: Source)
        ensures
            src.wf(),
            src@ == SourceView::List(table_of(split_lines(text@))),
            names_nonempty(src@.remaining()),
            src@.remaining().dom().finite(),
    {
        let lines = lines_of(text);
        let mut table = Table::new();
        let mut i: usize = 0;
        assert(views(lines@).take(0) =~= Seq::<Seq<char>>::empty());
        while i < lines.len()
            invariant
                i <= lines@.len(),
                table.wf(),
                table@ == table_of(views(lines@).take(i as int)),
            decreases lines@.len() - i,
        {
            let url: &String = &lines[i];
            let name = name_of(url.as_str());
            proof {
                let upto = views(lines@).take(i + 1);
                assert(upto.drop_last() =~= views(lines@).take(i as int));
                assert(upto.last() == url@);
            }
            if !name.as_str().is_empty() {
                table.insert(name, url.clone());
            }
            i += 1;
        }
        proof {
            assert(views(lines@).take(lines@.len() as int) =~= views(lines@));
            lemma_table_of_names(split_lines(text@));
        }
        Source::List(table)
    }

    /// The source that serves every name from `pattern`.
    pub fn template(pattern: &str) -> (src: Source)
        ensures
            src.wf(),
            src@ == SourceView::Template(pattern@),
            names_nonempty(src@.remaining()),
            src@.remaining().dom().finite(),
    {
        Source::Template(pattern.to_owned())
    }

    /// Makes the source that `spec` stands for. Where `spec` names a list
    /// file, `list` holds what that file holds, and the source is its table;
    /// else the source is the template `spec`. Either way no entry stands
    /// under the empty name.
    pub fn build(spec: &str, list: Option<&str>) -> (src: Source)
        ensures
            src.wf(),
            src@ == match list {
                Some(text) => SourceView::List(table_of(split_lines(text@))),
                None => SourceView::Template(spec@),
            },
            names_nonempty(src@.remaining()),
            src@.remaining().dom().finite(),
    {
        match list {
            Some(text) => Source::from_list(text),
            None => Source::template(spec),
        }
    }

    /// What a well-formed source still holds to be served once is finitely
    /// many entries.
    pub proof fn lemma_finite(&self)
        requires
            self.wf(),
        ensures
            self@.remaining().dom().finite(),
    {
        match self {
            Source::List(t) => {
                t.lemma_finite();
            },
            Source::Template(_) => {},
        }
    }

    /// Gives the URL for `name`. A table gives the URL it holds for the name
    /// and forgets it, so that it holds one entry fewer; where it holds
    /// none for the name, it stays as it is. A template gives its pattern
    /// filled with the name and stays as it is.
    pub fn provide(&mut self, name: &str) -> (url: Option<String>)
        requires
            old(self).wf(),
        ensures
            final(self).wf(),
            final(self)@ == old(self)@.without(name@),
            match url {
                Some(u) => old(self)@.url_for(name@) == Some(u@),
                None => old(self)@.url_for(name@).is_none(),
            },
            final(self)@.remaining().len() == old(self)@.remaining().len() - (if old(self)@ is List
                && url.is_some() {
                1int
            } else {
                0int
            }),
    {
        proof {
            self.lemma_finite();
            lemma_taking_counts(self@, name@);
        }
        match self {
            Source::List(table) => table.take(name),
            Source::Template(pattern) => Some(fill_template(pattern.as_str(), name)),
        }
    }

    /// Forgets `name` without giving its URL. A template stays as it is.
    pub fn remove(&mut self, name: &str)
        requires
            old(self).wf(),
        ensures
            final(self).wf(),
            final(self)@ == old(self)@.without(name@),
            final(self)@.remaining().len() == old(self)@.remaining().len() - (if old(
                self,
            )@.remaining().contains_key(name@) {
                1int
            } else {
                0int
            }),
    {
        proof {
            self.lemma_finite();
            lemma_taking_counts(self@, name@);
        }
        match self {
            Source::List(table) => {
                let _ = table.take(name);
            },
            Source::Template(_) => {},
        }
    }

    /// Gives up the source for what it still holds: the entries of a table,
    /// each name once, in no particular order; nothing for a template.
    pub fn into_rest(self) -> (rest: Vec<(String, String)>)
        requires
            self.wf(),
        ensures
            is_listing(rest@, self@.remaining()),
            rest@.len() == self@.remaining().len(),
            self@ is Template ==> rest@.len() == 0,
    {
        let rest = match self {
            Source::List(table) => table.drain(),
            Source::Template(_) => Vec::new(),
        };
        proof {
            lemma_listing_len(rest@, self@.remaining());
        }
        rest
    }
}

/// Taking a name from a source that holds finitely many entries leaves one
/// entry fewer where it held one for the name, and as many as before where
/// it held none. The names left are among those that were there.
pub proof fn lemma_taking_counts(v: SourceView, name: Seq<char>)
    requires
        v.remaining().dom().finite(),
    ensures
        v.without(name).remaining().dom().finite(),
        v.without(name).remaining().len() == v.remaining().len() - (if v.remaining().contains_key(
            name,
        ) {
            1int
        } else {
            0int
        }),
        names_nonempty(v.remaining()) ==> names_nonempty(v.without(name).remaining()),
{
    match v {
        SourceView::List(m) => {
            if m.contains_key(name) {
                m.lemma_remove_key_len(name);
            } else {
                assert(m.remove(name) =~= m);
            }
        },
        SourceView::Template(_) => {},
    }
}

/// A table serves a name at most once: once a name was taken from it, it
/// has no URL for that name, whether it had one before or not.
pub proof fn lemma_table_serves_once(v: SourceView, name: Seq<char>)
    requires
        v is List,
    ensures
        v.without(name).url_for(name).is_none(),
        v.without(name).without(name) == v.without(name),
{
    assert(v.without(name).without(name)->List_0 =~= v.without(name)->List_0);
}

/// Taking a name from a table leaves the URLs of all other names as they
/// were.
pub proof fn lemma_table_keeps_others(v: SourceView, name: Seq<char>, other: Seq<char>)
    requires
        v is List,
        other != name,
    ensures
        v.without(name).url_for(other) == v.url_for(other),
{
}

/// A template is never used up: it has a URL for every name, taking a name
/// leaves it as it was, and nothing of it remains to be listed.
pub proof fn lemma_template_inexhaustible(v: SourceView, name: Seq<char>)
    requires
        v is Template,
    ensures
        v.url_for(name).is_some(),
        v.without(name) == v,
        v.remaining() == Map::<Seq<char>, Seq<char>>::empty(),
{
}

/// The names of a listing, in its order.
pub open spec fn listed_names(rest: Seq<(String, String)>) -> Seq<Seq<char>> {
    Seq::new(rest.len(), |j: int| rest[j].0@)
}

/// A listing has as many entries as what it lists, which is finitely many.
pub proof fn lemma_listing_len(rest: Seq<(String, String)>, m: Map<Seq<char>, Seq<char>>)
    requires
        is_listing(rest, m),
    ensures
        m.dom().finite(),
        rest.len() == m.len(),
{
    let names = listed_names(rest);
    assert(names.no_duplicates()) by {
        assert forall|a: int, b: int|
            0 <= a < names.len() && 0 <= b < names.len() && a != b implies names[a]
            != names[b] by {
            if a < b {
                assert(rest[a].0@ != rest[b].0@);
            } else {
                assert(rest[b].0@ != rest[a].0@);
            }
        }
    }
    assert(names.to_set() =~= m.dom()) by {
        assert forall|k: Seq<char>| names.to_set().contains(k) implies m.dom().contains(k) by {
            let j = choose|j: int| 0 <= j < names.len() && names[j] == k;
            assert(m.contains_key(rest[j].0@));
        }
        assert forall|k: Seq<char>| m.dom().contains(k) implies names.to_set().contains(k) by {
            assert(m.contains_key(k));
            let j = choose|j: int| 0 <= j < rest.len() && rest[j].0@ == k;
            assert(names[j] == k);
        }
    }
    vstd::seq_lib::seq_to_set_is_finite(names);
    names.unique_seq_to_set();
}

/// Taking a set of names from a source that holds finitely many entries
/// leaves finitely many, and the names left are among those that were
/// there.
pub proof fn lemma_taking_all_keeps(v: SourceView, names: Set<Seq<char>>)
    requires
        v.remaining().dom().finite(),
    ensures
        v.without_all(names).remaining().dom().finite(),
        v.without_all(names).remaining().len() <= v.remaining().len(),
        names_nonempty(v.remaining()) ==> names_nonempty(v.without_all(names).remaining()),
{
    match v {
        SourceView::List(m) => {
            assert(m.remove_keys(names).dom() =~= m.dom().difference(names));
            vstd::set_lib::lemma_len_difference(m.dom(), names);
        },
        SourceView::Template(_) => {},
    }
}

/// A listing of no entries is empty.
pub proof fn lemma_listing_of_nothing(rest: Seq<(String, String)>)
    requires
        is_listing(rest, Map::<Seq<char>, Seq<char>>::empty()),
    ensures
        rest.len() == 0,
{
    if rest.len() > 0 {
        assert(Map::<Seq<char>, Seq<char>>::empty().contains_key(rest[0].0@));
    }
}

} // verus!
