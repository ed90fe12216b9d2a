//! The configuration model: sources, endpoint descriptions, and the
//! authentication exchange pair.  Pure data, plus lookup by name.

use vstd::prelude::*;

use crate::errors::DispatchError;
use crate::json::JsonValue;

verus! {

// ---------------------------------------------------------------------------
// A string-to-string mapping with unique keys.
// ---------------------------------------------------------------------------

/// Keys pairwise distinct.
pub open spec fn distinct_keys(s: Seq<(String, String)>) -> bool {
    forall|a: int, b: int| 0 <= a < b < s.len() ==> s[a].0@ != s[b].0@
}

/// The mapping an association list denotes (a later entry wins).
pub open spec fn map_of_pairs(s: Seq<(String, String)>) -> Map<Seq<char>, Seq<char>>
    decreases s.len(),
{
    if s.len() == 0 {
        Map::empty()
    } else {
        map_of_pairs(s.drop_last()).insert(s.last().0@, s.last().1@)
    }
}

pub proof fn lemma_map_of_pairs_contains(s: Seq<(String, String)>, k: Seq<char>)
    ensures
        map_of_pairs(s).contains_key(k) <==> exists|i: int| 0 <= i < s.len() && s[i].0@ == k,
    decreases s.len(),
{
    if s.len() > 0 {
        lemma_map_of_pairs_contains(s.drop_last(), k);
        if s.last().0@ == k {
            assert(s[s.len() - 1].0@ == k);
        } else {
            if map_of_pairs(s).contains_key(k) {
                let i = choose|i: int| 0 <= i < s.drop_last().len() && s.drop_last()[i].0@ == k;
                assert(s[i].0@ == k);
            }
            if exists|i: int| 0 <= i < s.len() && s[i].0@ == k {
                let i = choose|i: int| 0 <= i < s.len() && s[i].0@ == k;
                assert(s.drop_last()[i].0@ == k);
            }
        }
    }
}

pub proof fn lemma_map_of_pairs_at(s: Seq<(String, String)>, i: int)
    requires
        distinct_keys(s),
        0 <= i < s.len(),
    ensures
        map_of_pairs(s).contains_key(s[i].0@),
        map_of_pairs(s)[s[i].0@] == s[i].1@,
    decreases s.len(),
{
    if i < s.len() - 1 {
        assert forall|a: int, b: int| 0 <= a < b < s.drop_last().len() implies s.drop_last()[a].0@
            != s.drop_last()[b].0@ by {
            assert(s.drop_last()[a] == s[a]);
            assert(s.drop_last()[b] == s[b]);
        }
        lemma_map_of_pairs_at(s.drop_last(), i);
        assert(s.last().0@ != s[i].0@);
    }
}

proof fn lemma_map_of_pairs_update(s: Seq<(String, String)>, i: int, v: String)
    requires
        distinct_keys(s),
        0 <= i < s.len(),
    ensures
        map_of_pairs(s.update(i, (s[i].0, v))) == map_of_pairs(s).insert(s[i].0@, v@),
    decreases s.len(),
{
    let s2 = s.update(i, (s[i].0, v));
    if i == s.len() - 1 {
        assert(s2.drop_last() =~= s.drop_last());
        assert(s2.last() == (s[i].0, v));
        assert(map_of_pairs(s.drop_last()).insert(s[i].0@, s[i].1@).insert(s[i].0@, v@)
            =~= map_of_pairs(s.drop_last()).insert(s[i].0@, v@));
    } else {
        assert forall|a: int, b: int| 0 <= a < b < s.drop_last().len() implies s.drop_last()[a].0@
            != s.drop_last()[b].0@ by {
            assert(s.drop_last()[a] == s[a]);
            assert(s.drop_last()[b] == s[b]);
        }
        lemma_map_of_pairs_update(s.drop_last(), i, v);
        assert(s2.drop_last() =~= s.drop_last().update(i, (s[i].0, v)));
        assert(s2.last() == s.last());
        assert(s.last().0@ != s[i].0@);
        assert(map_of_pairs(s.drop_last()).insert(s[i].0@, v@).insert(s.last().0@, s.last().1@)
            =~= map_of_pairs(s.drop_last()).insert(s.last().0@, s.last().1@).insert(s[i].0@, v@));
    }
}

/// A mapping from strings to strings with unique, case-sensitive keys;
/// used for headers and for query parameters.
#[derive(Debug)]
pub struct StringMap {
    pub pairs: Vec<(String, String)>,
}

impl View for StringMap {
    type V = Map<Seq<char>, Seq<char>>;

    open spec fn view(&self) -> Map<Seq<char>, Seq<char>> {
        map_of_pairs(self.pairs@)
    }
}

impl StringMap {
    /// The well-formedness every constructor establishes and every method
    /// preserves: no key occurs twice.
    pub open spec fn wf(&self) -> bool {
        distinct_keys(self.pairs@)
    }

    pub fn new() -> (r: StringMap)
        ensures
            r@ == Map::<Seq<char>, Seq<char>>::empty(),
            r.wf(),
            r.pairs@.len() == 0,
    {
        StringMap { pairs: Vec::new() }
    }

    /// Binds `key` to `value`; an existing binding of `key` is overwritten
    /// (last writer wins).
    #[verifier::loop_isolation(false)]
    pub fn insert(&mut self, key: String, value: String)
        requires
            old(self).wf(),
        ensures
            final(self).wf(),
            final(self)@ == old(self)@.insert(key@, value@),
    {
        let n = self.pairs.len();
        let mut i: usize = 0;
        while i < n
            invariant
                i <= n,
                n == self.pairs@.len(),
                *self == *old(self),
                forall|t: int| 0 <= t < i ==> self.pairs@[t].0@ != key@,
            decreases n - i,
        {
            if self.pairs[i].0 == key {
                proof {
                    lemma_map_of_pairs_update(self.pairs@, i as int, value);
                }
                self.pairs[i].1 = value;
                proof {
                    assert forall|a: int, b: int|
                        0 <= a < b < self.pairs@.len() implies self.pairs@[a].0@
                        != self.pairs@[b].0@ by {
                        assert(self.pairs@[a].0 == old(self).pairs@[a].0);
                        assert(self.pairs@[b].0 == old(self).pairs@[b].0);
                    }
                }
                return ;
            }
            i = i + 1;
        }
        self.pairs.push((key, value));
        proof {
            assert(self.pairs@.drop_last() =~= old(self).pairs@);
            assert(self.pairs@.last() == (key, value));
        }
    }

    /// The value bound to `key`, if any.
    #[verifier::loop_isolation(false)]
    pub fn get<'a>(&'a self, key: &str) -> (r: Option<&'a String>)
        requires
            self.wf(),
        ensures
            match r {
                Option::Some(v) => self@.contains_key(key@) && v@ == self@[key@],
                Option::None => !self@.contains_key(key@),
            },
    {
        let k = key.to_owned();
        let n = self.pairs.len();
        let mut i: usize = 0;
        while i < n
            invariant
                i <= n,
                n == self.pairs@.len(),
                k@ == key@,
                forall|t: int| 0 <= t < i ==> self.pairs@[t].0@ != key@,
            decreases n - i,
        {
            if self.pairs[i].0 == k {
                proof {
                    lemma_map_of_pairs_at(self.pairs@, i as int);
                }
                return Some(&self.pairs[i].1);
            }
            i = i + 1;
        }
        proof {
            lemma_map_of_pairs_contains(self.pairs@, key@);
        }
        None
    }

    pub fn contains_key(&self, key: &str) -> (r: bool)
        requires
            self.wf(),
        ensures
            r == self@.contains_key(key@),
    {
        match self.get(key) {
            Option::Some(_) => true,
            Option::None => false,
        }
    }

    pub fn len(&self) -> (r: usize)
        ensures
            r == self.pairs@.len(),
    {
        self.pairs.len()
    }

    /// An equal copy (each call owns its own headers; nothing shared is
    /// ever mutated by a dispatch).
    pub fn duplicate(&self) -> (r: StringMap)
        ensures
            r.pairs@ == self.pairs@,
            r@ == self@,
            r.wf() <==> self.wf(),
    {
        let n = self.pairs.len();
        let mut out: Vec<(String, String)> = Vec::new();
        let mut i: usize = 0;
        while i < n
            invariant
                i <= n,
                n == self.pairs@.len(),
                out@ == self.pairs@.subrange(0, i as int),
            decreases n - i,
        {
            let k = self.pairs[i].0.clone();
            let v = self.pairs[i].1.clone();
            out.push((k, v));
            proof {
                assert(self.pairs@.subrange(0, i + 1) =~= self.pairs@.subrange(0, i as int).push(
                    self.pairs@[i as int],
                ));
            }
            i = i + 1;
        }
        proof {
            assert(self.pairs@.subrange(0, n as int) =~= self.pairs@);
        }
        StringMap { pairs: out }
    }
}

// ---------------------------------------------------------------------------
// The configuration model.
// ---------------------------------------------------------------------------

/// One declarative endpoint request: URL suffix, headers, query
/// parameters, and a JSON body where `Null` means "no body".
#[derive(Debug)]
pub struct ApiConfig {
    pub name: String,
    pub url: String,
    pub headers: StringMap,
    pub params: StringMap,
    pub body: JsonValue,
}

impl ApiConfig {
    pub open spec fn wf(&self) -> bool {
        self.headers.wf() && self.params.wf()
    }
}

/// A named external API provider, with optional credentials and
/// declarative endpoint presets.
#[derive(Debug)]
pub struct Source {
    pub name: String,
    pub base_url: String,
    pub username: String,
    pub password: String,
    pub endpoints: Vec<ApiConfig>,
}

/// The whole configuration: an ordered sequence of sources.
#[derive(Debug)]
pub struct Config {
    pub sources: Vec<Source>,
}

/// The first index at or after `i` whose source carries `name`, or the
/// length when there is none.  Lookup is by exact match; with duplicate
/// names the first match wins.
pub open spec fn find_source_index(sources: Seq<Source>, name: Seq<char>, i: int) -> int
    decreases sources.len() - i,
{
    if i < 0 || i >= sources.len() {
        sources.len() as int
    } else if sources[i].name@ == name {
        i
    } else {
        find_source_index(sources, name, i + 1)
    }
}

/// The first-match characterization of source lookup: the found index
/// carries the name, and nothing before it does.
pub proof fn lemma_find_source_index(sources: Seq<Source>, name: Seq<char>, i: int)
    requires
        0 <= i <= sources.len(),
    ensures
        i <= find_source_index(sources, name, i) <= sources.len(),
        find_source_index(sources, name, i) < sources.len() ==> sources[find_source_index(
            sources,
            name,
            i,
        )].name@ == name,
        forall|j: int| i <= j < find_source_index(sources, name, i) ==> sources[j].name@ != name,
    decreases sources.len() - i,
{
    if i < sources.len() && sources[i].name@ != name {
        lemma_find_source_index(sources, name, i + 1);
    }
}

impl Config {
    /// Resolves a source by exact name; the first match wins.  Fails with
    /// `ConfigError` exactly when no source carries the name.
    pub fn find_source<'a>(&'a self, name: &str) -> (r: Result<&'a Source, DispatchError>)
        ensures
            ({
                let idx = find_source_index(self.sources@, name@, 0);
                &&& (idx < self.sources@.len() ==> (r matches Ok(src) && *src == self.sources@[idx]))
                &&& (idx == self.sources@.len() ==> (r matches Err(e) && (e matches
                DispatchError::ConfigError(m) && m@ == "Source not found"@)))
            }),
    {
        let nm = name.to_owned();
        let n = self.sources.len();
        let mut i: usize = 0;
        while i < n
            invariant
                i <= n,
                n == self.sources@.len(),
                nm@ == name@,
                find_source_index(self.sources@, name@, 0) == find_source_index(
                    self.sources@,
                    name@,
                    i as int,
                ),
            decreases n - i,
        {
            if self.sources[i].name == nm {
                return Ok(&self.sources[i]);
            }
            i = i + 1;
        }
        Err(DispatchError::ConfigError("Source not found".to_owned()))
    }
}

// ---------------------------------------------------------------------------
// The authentication exchange pair.
// ---------------------------------------------------------------------------

/// What the credential exchange sends.
#[derive(Debug, PartialEq, Eq)]
pub struct AuthRequest {
    pub username: String,
    pub password: String,
}

/// What the credential exchange answers.  Only `access_key` drives the
/// dispatch; the other fields are informational and round-trip through
/// decoding without loss.
#[derive(Debug, PartialEq, Eq)]
pub struct AuthResponse {
    pub access_key: String,
    pub end_date_subscription: String,
    pub comment_ru: String,
    pub comment_en: String,
}

} // verus!
