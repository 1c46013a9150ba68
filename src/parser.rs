//! Classification of callsigns and ICAO address strings against the records
//! of the reference data.
use vstd::prelude::*;
use crate::text::copy_str;
use crate::dataset::{build_records, is_loaded_from, COUNTRIES_CSV, ORGANIZATIONS_CSV};

verus! {

/// What a record stands for: a state or an international organization.
#[derive(Debug, PartialEq, Eq)]
pub enum EntityResult {
    Country { nation: String, description: String, iso2: String, iso3: String },
    Organization { name: String, description: String },
}

impl Clone for EntityResult {
    fn clone(&self) -> (r: Self)
        ensures
            r == *self,
    {
        match self {
            EntityResult::Country { nation, description, iso2, iso3 } => EntityResult::Country {
                nation: nation.clone(),
                description: description.clone(),
                iso2: iso2.clone(),
                iso3: iso3.clone(),
            },
            EntityResult::Organization { name, description } => EntityResult::Organization {
                name: name.clone(),
                description: description.clone(),
            },
        }
    }
}

/// One record of the reference data.
pub struct EntityRecord {
    pub entity_result: EntityResult,
    /// Rank among records whose patterns match the same callsign; higher wins.
    pub priority: i32,
    /// Literal callsign prefixes under which the record is found.
    pub callsigns: Vec<String>,
    /// Pattern of a full callsign, with optional separator and tail.
    pub regex: String,
    /// Pattern of a full callsign, with mandatory separator and tail.
    pub strict_regex: String,
    /// Literal prefixes of the hexadecimal ICAO addresses of the record.
    pub icao24bit_prefixes: Vec<String>,
}

/// Whether `pattern` compiles as a regular expression and matches somewhere
/// in `haystack`.
pub uninterp spec fn regex_accepts(pattern: Seq<char>, haystack: Seq<char>) -> bool;

/// Relies on regex::Regex::new and regex::Regex::is_match: whether a pattern
/// compiles and matches a haystack depends on the two strings alone.
#[verifier::external_body]
fn regex_matches(pattern: &str, haystack: &str) -> (r: bool)
    ensures
        r == regex_accepts(pattern@, haystack@),
{
    match regex::Regex::new(pattern) {
        Ok(re) => re.is_match(haystack),
        Err(_) => false,
    }
}

/// Whether one of `list` reads `key`.
pub open spec fn lists(list: Seq<String>, key: Seq<char>) -> bool {
    exists|k: int| 0 <= k < list.len() && (#[trigger] list[k])@ == key
}

/// The first `len` characters of `input`, where it has that many.
pub open spec fn prefix_key(input: Seq<char>, len: int) -> Option<Seq<char>> {
    if 0 <= len <= input.len() {
        Some(input.subrange(0, len))
    } else {
        None
    }
}

/// The records among the first `n` that list the first `len` characters of
/// `input` as a callsign prefix, in record order.
pub open spec fn candidates_of_len(
    data: Seq<EntityRecord>,
    input: Seq<char>,
    len: int,
    n: int,
) -> Seq<int>
    decreases n,
{
    if n <= 0 {
        Seq::empty()
    } else {
        let rest = candidates_of_len(data, input, len, n - 1);
        match prefix_key(input, len) {
            Some(key) => if lists(data[n - 1].callsigns@, key) {
                rest.push(n - 1)
            } else {
                rest
            },
            None => rest,
        }
    }
}

/// The candidate records of a callsign: for each prefix length from `lo` to
/// `hi` in turn, the records that list that prefix of `input`.
pub open spec fn candidates(data: Seq<EntityRecord>, input: Seq<char>, lo: int, hi: int) -> Seq<int>
    decreases hi - lo + 1,
{
    if hi < lo {
        Seq::empty()
    } else {
        candidates(data, input, lo, hi - 1) + candidates_of_len(data, input, hi, data.len() as int)
    }
}

/// The pattern of a record that a lookup in the given mode tests.
pub open spec fn pattern_of(rec: EntityRecord, strict: bool) -> Seq<char> {
    if strict {
        rec.strict_regex@
    } else {
        rec.regex@
    }
}

/// Whether the record `i` matches `input` in the given mode.
pub open spec fn record_accepts(data: Seq<EntityRecord>, i: int, input: Seq<char>, strict: bool) -> bool {
    regex_accepts(pattern_of(data[i], strict), input)
}

/// Position `p` of `cands` holds the winner: its record matches, no matching
/// candidate has a higher priority, and every matching candidate before it
/// has a lower one.
pub open spec fn is_winner(
    data: Seq<EntityRecord>,
    cands: Seq<int>,
    input: Seq<char>,
    strict: bool,
    p: int,
) -> bool {
    &&& 0 <= p < cands.len()
    &&& record_accepts(data, cands[p], input, strict)
    &&& forall|q: int|
        0 <= q < cands.len() && record_accepts(data, #[trigger] cands[q], input, strict)
            ==> data[cands[q]].priority <= data[cands[p]].priority
    &&& forall|q: int|
        0 <= q < p && record_accepts(data, #[trigger] cands[q], input, strict)
            ==> data[cands[q]].priority < data[cands[p]].priority
}

/// Whether some candidate matches.
pub open spec fn any_accepts(data: Seq<EntityRecord>, cands: Seq<int>, input: Seq<char>, strict: bool) -> bool {
    exists|q: int| 0 <= q < cands.len() && record_accepts(data, #[trigger] cands[q], input, strict)
}

/// The last of the first `n` records that lists `key` as an ICAO prefix.
pub open spec fn icao_owner(data: Seq<EntityRecord>, key: Seq<char>, n: int) -> Option<int>
    decreases n,
{
    if n <= 0 {
        None
    } else if lists(data[n - 1].icao24bit_prefixes@, key) {
        Some(n - 1)
    } else {
        icao_owner(data, key, n - 1)
    }
}

/// The record of the shortest prefix of `input`, of length `len` or more,
/// that some record lists as an ICAO prefix.
pub open spec fn icao_match_from(data: Seq<EntityRecord>, input: Seq<char>, len: int) -> Option<int>
    decreases input.len() + 1 - len,
{
    if len < 1 || len > input.len() {
        None
    } else {
        match icao_owner(data, input.subrange(0, len), data.len() as int) {
            Some(i) => Some(i),
            None => icao_match_from(data, input, len + 1),
        }
    }
}

/// An uppercase hexadecimal digit.
pub open spec fn is_upper_hex(c: char) -> bool {
    ('0' <= c <= '9') || ('A' <= c <= 'F')
}

/// Exactly six uppercase hexadecimal digits.
pub open spec fn is_icao_hex(s: Seq<char>) -> bool {
    s.len() == 6 && forall|k: int| 0 <= k < 6 ==> is_upper_hex(#[trigger] s[k])
}

/// Whether some entry of `list` reads `key`.
fn lists_text(list: &Vec<String>, key: &String) -> (r: bool)
    ensures
        r == lists(list@, key@),
{
    let mut k: usize = 0;
    while k < list.len()
        invariant
            k <= list@.len(),
            forall|j: int| 0 <= j < k ==> (#[trigger] list@[j])@ != key@,
        decreases list.len() - k,
    {
        if list[k].eq(key) {
            return true;
        }
        k = k + 1;
    }
    false
}

/// Whether `s` is exactly six uppercase hexadecimal digits.
pub fn is_icao_hex_text(s: &str) -> (r: bool)
    ensures
        r == is_icao_hex(s@),
{
    if s.unicode_len() != 6 {
        return false;
    }
    let mut k: usize = 0;
    while k < 6
        invariant
            s@.len() == 6,
            k <= 6,
            forall|j: int| 0 <= j < k ==> is_upper_hex(#[trigger] s@[j]),
        decreases 6 - k,
    {
        let c = s.get_char(k);
        if !(('0' <= c && c <= '9') || ('A' <= c && c <= 'F')) {
            return false;
        }
        k = k + 1;
    }
    true
}

/// Whether every entry of `list` has a length between `lo` and `hi`.
pub open spec fn lengths_within(list: Seq<String>, lo: int, hi: int) -> bool {
    forall|j: int| 0 <= j < list.len() ==> lo <= (#[trigger] list[j])@.len() <= hi
}

/// Widens the bounds `lo..=hi` (unset while `seen` is false) to the lengths of `list`.
fn widen_bounds(list: &Vec<String>, seen: bool, lo: usize, hi: usize) -> (r: (bool, usize, usize))
    requires
        lo <= hi,
        !seen ==> lo == 0 && hi == 0,
    ensures
        r.1 <= r.2,
        !r.0 ==> r.1 == 0 && r.2 == 0,
        seen ==> r.1 <= lo && hi <= r.2,
        r.0 == (seen || list@.len() > 0),
        lengths_within(list@, r.1 as int, r.2 as int),
        r.0 ==> (seen && r.1 == lo) || exists|j: int| 0 <= j < list@.len() && (#[trigger] list@[j])@.len() == r.1,
        r.0 ==> (seen && r.2 == hi) || exists|j: int| 0 <= j < list@.len() && (#[trigger] list@[j])@.len() == r.2,
{
    let mut seen = seen;
    let mut lo = lo;
    let mut hi = hi;
    let ghost (lo0, hi0, seen0) = (lo, hi, seen);
    let mut k: usize = 0;
    while k < list.len()
        invariant
            k <= list@.len(),
            lo <= hi,
            !seen ==> lo == 0 && hi == 0,
            seen0 ==> seen && lo <= lo0 && hi0 <= hi,
            seen == (seen0 || k > 0),
            seen ==> (seen0 && lo == lo0) || exists|j: int| 0 <= j < k && (#[trigger] list@[j])@.len() == lo,
            seen ==> (seen0 && hi == hi0) || exists|j: int| 0 <= j < k && (#[trigger] list@[j])@.len() == hi,
            forall|j: int| 0 <= j < k ==> lo <= (#[trigger] list@[j])@.len() <= hi,
        decreases list.len() - k,
    {
        let l = list[k].as_str().unicode_len();
        if !seen {
            lo = l;
            hi = l;
            seen = true;
        } else if l < lo {
            lo = l;
        } else if l > hi {
            hi = l;
        }
        assert(l == list@[k as int]@.len());
        k = k + 1;
    }
    (seen, lo, hi)
}

/// Whether some callsign prefix of the first `n` records has `len` characters.
pub open spec fn some_callsign_of_len(data: Seq<EntityRecord>, n: int, len: int) -> bool {
    exists|a: int, k: int|
        0 <= a < n && 0 <= k < data[a].callsigns@.len() && (#[trigger] data[a].callsigns@[k])@.len() == len
}

/// Whether one of the first `n` records lists a callsign prefix.
pub open spec fn has_callsign(data: Seq<EntityRecord>, n: int) -> bool {
    exists|a: int| 0 <= a < n && (#[trigger] data[a]).callsigns@.len() > 0
}

/// Widens a sequence of positions.
pub open spec fn as_ints(v: Seq<usize>) -> Seq<int> {
    v.map_values(|x: usize| x as int)
}

/// A classifier over a sequence of records, which it never changes.
pub struct Parser {
    data: Vec<EntityRecord>,
    min_callsign_len: usize,
    max_callsign_len: usize,
}

impl Parser {
    /// The records, in the order in which they were given.
    pub closed spec fn records(&self) -> Seq<EntityRecord> {
        self.data@
    }

    /// The shortest callsign prefix length that lookups try.
    pub closed spec fn min_len(&self) -> int {
        self.min_callsign_len as int
    }

    /// The longest callsign prefix length that lookups try.
    pub closed spec fn max_len(&self) -> int {
        self.max_callsign_len as int
    }

    /// The candidate records of a callsign, in the order in which they are weighed.
    pub open spec fn callsign_candidates(&self, input: Seq<char>) -> Seq<int> {
        candidates(self.records(), input, self.min_len(), self.max_len())
    }

    /// Appends the records that list the first `len` characters of `input`.
    fn push_candidates_of_len(&self, input: &str, len: usize, cands: &mut Vec<usize>)
        requires
            forall|q: int| 0 <= q < old(cands)@.len() ==> old(cands)@[q] < self.records().len(),
        ensures
            forall|q: int| 0 <= q < final(cands)@.len() ==> final(cands)@[q] < self.records().len(),
            as_ints(final(cands)@) == as_ints(old(cands)@) + candidates_of_len(
                self.records(),
                input@,
                len as int,
                self.records().len() as int,
            ),
    {
        let ghost start = as_ints(cands@);
        let n = input.unicode_len();
        if len > n {
            let mut i: usize = 0;
            while i < self.data.len()
                invariant
                    i <= self.data@.len(),
                    len > input@.len(),
                    cands@ == old(cands)@,
                    candidates_of_len(self.data@, input@, len as int, i as int) =~= Seq::<int>::empty(),
                decreases self.data.len() - i,
            {
                i = i + 1;
            }
            assert(as_ints(cands@) =~= start + Seq::<int>::empty());
            return;
        }
        let key = copy_str(input.substring_char(0, len));
        let mut i: usize = 0;
        while i < self.data.len()
            invariant
                i <= self.data@.len(),
                len <= input@.len(),
                key@ == input@.subrange(0, len as int),
                forall|q: int| 0 <= q < cands@.len() ==> cands@[q] < self.data@.len(),
                as_ints(cands@) == start + candidates_of_len(self.data@, input@, len as int, i as int),
            decreases self.data.len() - i,
        {
            let ghost before = as_ints(cands@);
            if lists_text(&self.data[i].callsigns, &key) {
                cands.push(i);
                assert(as_ints(cands@) =~= before.push(i as int));
            }
            i = i + 1;
        }
    }

    /// The callsign candidates of `input`, in order.
    fn callsign_candidate_list(&self, input: &str) -> (r: Vec<usize>)
        ensures
            as_ints(r@) == self.callsign_candidates(input@),
            forall|q: int| 0 <= q < r@.len() ==> r@[q] < self.records().len(),
    {
        let mut cands: Vec<usize> = Vec::new();
        let lo = self.min_callsign_len;
        let hi = self.max_callsign_len;
        if lo > hi {
            assert(as_ints(cands@) =~= Seq::<int>::empty());
            return cands;
        }
        let mut len: usize = lo;
        assert(as_ints(cands@) =~= candidates(self.data@, input@, lo as int, lo - 1));
        loop
            invariant_except_break
                lo <= len <= hi,
                as_ints(cands@) == candidates(self.data@, input@, lo as int, len - 1),
            invariant
                forall|q: int| 0 <= q < cands@.len() ==> cands@[q] < self.data@.len(),
            ensures
                as_ints(cands@) == candidates(self.data@, input@, lo as int, hi as int),
            decreases hi - len,
        {
            self.push_candidates_of_len(input, len, &mut cands);
            if len == hi {
                break;
            }
            len = len + 1;
        }
        cands
    }

    /// The position in the record sequence of the winning record for a callsign.
    fn parse_registration(&self, input: &str, strict: bool) -> (r: Option<usize>)
        ensures
            r matches Some(i) ==> i < self.records().len(),
            match r {
                None => !any_accepts(self.records(), self.callsign_candidates(input@), input@, strict),
                Some(i) => exists|p: int|
                    is_winner(self.records(), self.callsign_candidates(input@), input@, strict, p)
                        && self.callsign_candidates(input@)[p] == i,
            },
    {
        let cands = self.callsign_candidate_list(input);
        let ghost cs = self.callsign_candidates(input@);
        let ghost data = self.data@;
        let mut best: Option<usize> = None;
        let mut k: usize = 0;
        while k < cands.len()
            invariant
                as_ints(cands@) == cs,
                forall|q: int| 0 <= q < cands@.len() ==> cands@[q] < data.len(),
                data == self.data@,
                k <= cands@.len(),
                match best {
                    None => forall|q: int| 0 <= q < k ==> !record_accepts(data, #[trigger] cs[q], input@, strict),
                    Some(p) => {
                        &&& p < k
                        &&& record_accepts(data, cs[p as int], input@, strict)
                        &&& forall|q: int| 0 <= q < k && record_accepts(data, #[trigger] cs[q], input@, strict)
                                ==> data[cs[q]].priority <= data[cs[p as int]].priority
                        &&& forall|q: int| 0 <= q < p && record_accepts(data, #[trigger] cs[q], input@, strict)
                                ==> data[cs[q]].priority < data[cs[p as int]].priority
                    },
                },
            decreases cands.len() - k,
        {
            let c = cands[k];
            assert(cs[k as int] == c as int);
            let rec = &self.data[c];
            let pattern = if strict { rec.strict_regex.as_str() } else { rec.regex.as_str() };
            if regex_matches(pattern, input) {
                let better = match best {
                    None => true,
                    Some(p) => rec.priority > self.data[cands[p]].priority,
                };
                if better {
                    best = Some(k);
                }
            }
            k = k + 1;
        }
        match best {
            None => None,
            Some(p) => {
                assert(is_winner(data, cs, input@, strict, p as int));
                Some(cands[p])
            },
        }
    }

    /// The record of the shortest prefix of `input` that is an ICAO prefix of
    /// some record; in strict mode only for six uppercase hexadecimal digits.
    fn parse_icao24bit(&self, input: &str, strict: bool) -> (r: Option<usize>)
        ensures
            r matches Some(i) ==> i < self.records().len(),
            (match r {
                Some(i) => Some(i as int),
                None => None,
            }) == (if strict && !is_icao_hex(input@) {
                None
            } else {
                icao_match_from(self.records(), input@, 1)
            }),
    {
        if strict && !is_icao_hex_text(input) {
            return None;
        }
        let ghost data = self.data@;
        let n = input.unicode_len();
        let mut len: usize = 0;
        while len < n
            invariant
                data == self.data@,
                n == input@.len(),
                len <= n,
                !(strict && !is_icao_hex(input@)),
                icao_match_from(data, input@, 1) == icao_match_from(data, input@, len + 1),
            decreases n - len,
        {
            assert(icao_match_from(data, input@, len + 1) == match icao_owner(
                data,
                input@.subrange(0, len + 1),
                data.len() as int,
            ) {
                Some(j) => Some(j),
                None => icao_match_from(data, input@, len + 2),
            });
            let key = copy_str(input.substring_char(0, len + 1));
            let mut i: usize = self.data.len();
            while i > 0
                invariant
                    data == self.data@,
                    i <= data.len(),
                    len < n,
                    !(strict && !is_icao_hex(input@)),
                    n == input@.len(),
                    icao_match_from(data, input@, 1) == icao_match_from(data, input@, len + 1),
                    icao_match_from(data, input@, len + 1) == match icao_owner(
                        data,
                        input@.subrange(0, len + 1),
                        data.len() as int,
                    ) {
                        Some(j) => Some(j),
                        None => icao_match_from(data, input@, len + 2),
                    },
                    key@ == input@.subrange(0, len + 1),
                    icao_owner(data, key@, data.len() as int) == icao_owner(data, key@, i as int),
                decreases i,
            {
                if lists_text(&self.data[i - 1].icao24bit_prefixes, &key) {
                    assert(icao_owner(data, key@, i as int) == Some((i - 1) as int));
                    assert(icao_match_from(data, input@, len + 1) == Some((i - 1) as int));
                    return Some(i - 1);
                }
                i = i - 1;
            }
            len = len + 1;
        }
        None
    }

    /// The entity of a callsign (`icao24bit` false) or of a hexadecimal ICAO
    /// address (`icao24bit` true).
    ///
    /// A callsign is looked up under each of its prefixes whose length lies
    /// between the shortest and the longest callsign prefix of the records;
    /// of the candidates found, in that order, whose pattern (strict or loose)
    /// matches, the first of the highest priority wins. An address is looked up
    /// under its prefixes from the shortest on, and the first hit wins.
    pub fn parse(&self, input: &str, strict: bool, icao24bit: bool) -> (r: Option<EntityResult>)
        ensures
            icao24bit ==> r == (match (if strict && !is_icao_hex(input@) {
                None
            } else {
                icao_match_from(self.records(), input@, 1)
            }) {
                Some(i) => Some(self.records()[i].entity_result),
                None => None,
            }),
            !icao24bit ==> match r {
                None => !any_accepts(self.records(), self.callsign_candidates(input@), input@, strict),
                Some(e) => exists|p: int|
                    is_winner(self.records(), self.callsign_candidates(input@), input@, strict, p)
                        && e == self.records()[self.callsign_candidates(input@)[p]].entity_result,
            },
    {
        if icao24bit {
            match self.parse_icao24bit(input, strict) {
                Some(i) => Some(self.data[i].entity_result.clone()),
                None => None,
            }
        } else {
            match self.parse_registration(input, strict) {
                Some(i) => Some(self.data[i].entity_result.clone()),
                None => None,
            }
        }
    }

    /// The entity of a callsign, in loose mode.
    pub fn parse_simple(&self, input: &str) -> (r: Option<EntityResult>)
        ensures
            match r {
                None => !any_accepts(self.records(), self.callsign_candidates(input@), input@, false),
                Some(e) => exists|p: int|
                    is_winner(self.records(), self.callsign_candidates(input@), input@, false, p)
                        && e == self.records()[self.callsign_candidates(input@)[p]].entity_result,
            },
    {
        self.parse(input, false, false)
    }

    /// A classifier over `data`; the callsign prefix lengths it tries run from
    /// the shortest to the longest callsign prefix of the records.
    pub fn from_records(data: Vec<EntityRecord>) -> (p: Self)
        ensures
            p.records() == data@,
            forall|i: int, k: int|
                0 <= i < data@.len() && 0 <= k < data@[i].callsigns@.len()
                    ==> p.min_len() <= (#[trigger] data@[i].callsigns@[k])@.len() <= p.max_len(),
            p.min_len() <= p.max_len(),
            !has_callsign(data@, data@.len() as int) ==> p.min_len() == 0 && p.max_len() == 0,
            has_callsign(data@, data@.len() as int) ==> some_callsign_of_len(data@, data@.len() as int, p.min_len())
                && some_callsign_of_len(data@, data@.len() as int, p.max_len()),
    {
        let mut lo: usize = 0;
        let mut hi: usize = 0;
        let mut seen = false;
        let mut i: usize = 0;
        while i < data.len()
            invariant
                i <= data@.len(),
                lo <= hi,
                !seen ==> lo == 0 && hi == 0,
                forall|a: int|
                    0 <= a < i && (#[trigger] data@[a]).callsigns@.len() > 0
                        ==> seen && lengths_within(data@[a].callsigns@, lo as int, hi as int),
                forall|a: int|
                    0 <= a < i ==> lengths_within((#[trigger] data@[a]).callsigns@, lo as int, hi as int),
                seen == has_callsign(data@, i as int),
                seen ==> some_callsign_of_len(data@, i as int, lo as int) && some_callsign_of_len(data@, i as int, hi as int),
            decreases data.len() - i,
        {
            let ghost (seen0, lo0, hi0) = (seen, lo, hi);
            let r = widen_bounds(&data[i].callsigns, seen, lo, hi);
            proof {
                let list = data@[i as int].callsigns@;
                if list.len() > 0 {
                    assert(has_callsign(data@, i + 1));
                } else if seen0 {
                    let a = choose|a: int| 0 <= a < i && (#[trigger] data@[a]).callsigns@.len() > 0;
                    assert(has_callsign(data@, i + 1));
                } else {
                    assert(!has_callsign(data@, i + 1)) by {
                        assert forall|a: int| 0 <= a < i + 1 implies (#[trigger] data@[a]).callsigns@.len() <= 0 by {
                            if a < i {
                                assert(!has_callsign(data@, i as int));
                            }
                        }
                    }
                }
                if r.0 {
                    if seen0 && r.1 == lo0 {
                        let (a, k) = choose|a: int, k: int|
                            0 <= a < i && 0 <= k < data@[a].callsigns@.len() && (#[trigger] data@[a].callsigns@[k])@.len() == lo0;
                        assert(data@[a].callsigns@[k]@.len() == r.1);
                    } else {
                        let j = choose|j: int| 0 <= j < list.len() && (#[trigger] list[j])@.len() == r.1;
                        assert(data@[i as int].callsigns@[j]@.len() == r.1);
                    }
                    if seen0 && r.2 == hi0 {
                        let (a, k) = choose|a: int, k: int|
                            0 <= a < i && 0 <= k < data@[a].callsigns@.len() && (#[trigger] data@[a].callsigns@[k])@.len() == hi0;
                        assert(data@[a].callsigns@[k]@.len() == r.2);
                    } else {
                        let j = choose|j: int| 0 <= j < list.len() && (#[trigger] list[j])@.len() == r.2;
                        assert(data@[i as int].callsigns@[j]@.len() == r.2);
                    }
                }
            }
            seen = r.0;
            lo = r.1;
            hi = r.2;
            i = i + 1;
        }
        assert forall|a: int, k: int|
            0 <= a < data@.len() && 0 <= k < data@[a].callsigns@.len()
                implies lo <= (#[trigger] data@[a].callsigns@[k])@.len() <= hi by {
            assert(lengths_within(data@[a].callsigns@, lo as int, hi as int));
        }
        Parser { data, min_callsign_len: lo, max_callsign_len: hi }
    }

    /// A classifier over the records of a table of states and a table of
    /// organizations, states first.
    pub fn from_csv(countries_csv: &str, organizations_csv: &str) -> (p: Self)
        ensures
            is_loaded_from(p.records(), countries_csv@, organizations_csv@),
    {
        Parser::from_records(build_records(countries_csv, organizations_csv))
    }

    /// A classifier over the built-in tables.
    pub fn new() -> (p: Self)
        ensures
            is_loaded_from(p.records(), COUNTRIES_CSV@, ORGANIZATIONS_CSV@),
    {
        Parser::from_csv(COUNTRIES_CSV, ORGANIZATIONS_CSV)
    }

    /// How many records the classifier holds.
    pub fn record_count(&self) -> (r: usize)
        ensures
            r == self.records().len(),
    {
        self.data.len()
    }

    /// The shortest callsign prefix length that lookups try.
    pub fn min_callsign_len(&self) -> (r: usize)
        ensures
            r == self.min_len(),
    {
        self.min_callsign_len
    }

    /// The longest callsign prefix length that lookups try.
    pub fn max_callsign_len(&self) -> (r: usize)
        ensures
            r == self.max_len(),
    {
        self.max_callsign_len
    }
}

/// Among candidates that match, a higher priority always beats a lower one,
/// wherever the two stand in the candidate order; and there is one winner.
pub proof fn lemma_priority_decides(
    data: Seq<EntityRecord>,
    cands: Seq<int>,
    input: Seq<char>,
    strict: bool,
    p: int,
    q: int,
    w: int,
)
    requires
        0 <= p < cands.len(),
        0 <= q < cands.len(),
        record_accepts(data, cands[p], input, strict),
        record_accepts(data, cands[q], input, strict),
        data[cands[p]].priority > data[cands[q]].priority,
        is_winner(data, cands, input, strict, w),
    ensures
        cands[w] != cands[q],
        data[cands[w]].priority >= data[cands[p]].priority,
        forall|v: int| is_winner(data, cands, input, strict, v) ==> v == w,
{
    assert forall|v: int| is_winner(data, cands, input, strict, v) implies v == w by {
        if v < w {
            assert(data[cands[v]].priority < data[cands[w]].priority);
        } else if w < v {
            assert(data[cands[w]].priority < data[cands[v]].priority);
        }
    }
}

proof fn lemma_icao_match_skips(data: Seq<EntityRecord>, input: Seq<char>, from: int, len: int)
    requires
        1 <= from <= len <= input.len(),
        forall|l: int| from <= l < len ==> icao_owner(data, #[trigger] input.subrange(0, l), data.len() as int) is None,
    ensures
        icao_match_from(data, input, from) == icao_match_from(data, input, len),
    decreases len - from,
{
    if from < len {
        lemma_icao_match_skips(data, input, from + 1, len);
    }
}

/// In an ICAO address lookup the shortest listed prefix decides, even where a
/// longer prefix of the address is listed by another record.
pub proof fn lemma_shortest_icao_prefix_wins(data: Seq<EntityRecord>, input: Seq<char>, len: int, i: int)
    requires
        1 <= len <= input.len(),
        icao_owner(data, input.subrange(0, len), data.len() as int) == Some(i),
        forall|l: int| 1 <= l < len ==> icao_owner(data, #[trigger] input.subrange(0, l), data.len() as int) is None,
    ensures
        icao_match_from(data, input, 1) == Some(i),
{
    lemma_icao_match_skips(data, input, 1, len);
}

impl Default for Parser {
    fn default() -> (p: Self)
        ensures
            is_loaded_from(p.records(), COUNTRIES_CSV@, ORGANIZATIONS_CSV@),
    {
        Parser::new()
    }
}

} // verus!
