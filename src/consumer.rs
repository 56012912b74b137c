//! The aggregating consumer: counts of log records per time slice, by
//! response status, by kind of URI and by service time, with a merge that
//! combines the partial results of several workers.

use vstd::prelude::*;
use crate::histogram::{
    lemma_pairs_has, lemma_pairs_lacks,
    add_histogram, bump, equivalent_top, histogram_counts, new_histogram, pairs_map, record_value,
    recorded_counts, increasing_keys, trackable, bucket_counts, positive, LatencyHistogram, HISTOGRAM_LIMIT,
};
use crate::accesslog::{Record, EARLIEST_TIMESTAMP};
use crate::text::{chars_of, decimal_text, push_chars, push_decimal, push_signed_decimal, signed_decimal_text, string_of};
use crate::tally::{
    lemma_add_counts_associates, lemma_add_counts_commutes,
    add_counts, bounded, count_in, entries_map, lemma_add_counts_insert, lemma_entries_map_bounded,
    lemma_entries_map_has, lemma_entries_map_lacks, lemma_entries_map_update, sat, unique_keys,
};

verus! {

/// The kinds of request URI.
#[derive(Clone, Copy, Debug, PartialEq, Eq, Structural, Hash)]
pub enum UriType {
    HdsBootstrap,
    HlsSegment,
    HdsSegment,
    HlsMediaManifest,
    HlsMasterManifest,
    HdsF4mManifest,
    DashInitialisationSegment,
    DashSegment,
    DashManifest,
    Admin,
    UnknownOther,
}

/// The kind that the pattern at `i` of `uri_patterns` stands for; no
/// pattern means `UnknownOther`.
pub open spec fn uri_type_at(i: Option<nat>) -> UriType {
    match i {
        Some(n) => if n == 0 {
            UriType::HdsBootstrap
        } else if n == 1 {
            UriType::HlsSegment
        } else if n == 2 {
            UriType::HdsSegment
        } else if n == 3 {
            UriType::HlsMediaManifest
        } else if n == 4 {
            UriType::HlsMasterManifest
        } else if n == 5 {
            UriType::HdsF4mManifest
        } else if n == 6 {
            UriType::DashInitialisationSegment
        } else if n == 7 {
            UriType::DashSegment
        } else if n == 8 {
            UriType::DashManifest
        } else if n == 9 {
            UriType::Admin
        } else {
            UriType::UnknownOther
        },
        None => UriType::UnknownOther,
    }
}

/// The patterns that classify a URI, in order of priority.
pub open spec fn uri_patterns() -> Seq<Seq<char>> {
    seq![
        r"\.bootstrap"@,
        r"/[^/]+.ts"@,
        r"-Seg1-Frag(\d+)"@,
        r"(?:audio=|video=)[^/]+\.m3u8"@,
        r"\.m3u8"@,
        r"\.f4m"@,
        r"\.dash"@,
        r"\.m4s"@,
        r"\.mpd"@,
        r"/test\.txt$|/Manifest?iss_client_manifest_version=22$|/archive-segment-length-seconds$|/state$|/statistics$|/servicePaths.txt$|/server-status$"@,
    ]
}

/// The lowest index among `patterns` of a regular expression that
/// `regex::RegexSet` finds in `text`.
pub uninterp spec fn regex_set_first(patterns: Seq<Seq<char>>, text: Seq<char>) -> Option<nat>;

pub open spec fn texts_of(v: Seq<&str>) -> Seq<Seq<char>> {
    v.map_values(|p: &str| p@)
}

/// Relies on `regex::RegexSet::new` and `RegexSet::matches`: the lowest
/// index of a pattern that matches somewhere in `text`; `None` where none
/// does or the patterns do not compile.
#[verifier::external_body]
fn first_matching_pattern(patterns: &[&str], text: &str) -> (r: Option<usize>)
    ensures
        match r {
            Some(i) => regex_set_first(texts_of(patterns@), text@) == Some(i as nat) && i < patterns@.len(),
            None => regex_set_first(texts_of(patterns@), text@) is None,
        },
{
    regex::RegexSet::new(patterns).ok()?.matches(text).into_iter().next()
}

/// The kind of a request URI: that of the first pattern it matches.
pub fn classify(uri: &str) -> (r: UriType)
    ensures
        r == uri_type_at(regex_set_first(uri_patterns(), uri@)),
{
    let pats: [&str; 10] = [
        r"\.bootstrap",
        r"/[^/]+.ts",
        r"-Seg1-Frag(\d+)",
        r"(?:audio=|video=)[^/]+\.m3u8",
        r"\.m3u8",
        r"\.f4m",
        r"\.dash",
        r"\.m4s",
        r"\.mpd",
        r"/test\.txt$|/Manifest?iss_client_manifest_version=22$|/archive-segment-length-seconds$|/state$|/statistics$|/servicePaths.txt$|/server-status$",
    ];
    assert(texts_of(pats@) =~= uri_patterns());
    uri_type_of_pattern(first_matching_pattern(pats.as_slice(), uri))
}

/// The kind that the pattern at position `i` of the classifying patterns
/// stands for; no pattern means `UnknownOther`.
pub fn uri_type_of_pattern(i: Option<usize>) -> (r: UriType)
    ensures
        r == uri_type_at(
            match i {
                Some(n) => Some(n as nat),
                None => None,
            },
        ),
{
    match i {
        Some(0) => UriType::HdsBootstrap,
        Some(1) => UriType::HlsSegment,
        Some(2) => UriType::HdsSegment,
        Some(3) => UriType::HlsMediaManifest,
        Some(4) => UriType::HlsMasterManifest,
        Some(5) => UriType::HdsF4mManifest,
        Some(6) => UriType::DashInitialisationSegment,
        Some(7) => UriType::DashSegment,
        Some(8) => UriType::DashManifest,
        Some(9) => UriType::Admin,
        _ => UriType::UnknownOther,
    }
}

/// The name of a kind of URI, as its column in a report.
pub open spec fn uri_type_name(t: UriType) -> Seq<char> {
    match t {
        UriType::HdsBootstrap => "HdsBootstrap"@,
        UriType::HlsSegment => "HlsSegment"@,
        UriType::HdsSegment => "HdsSegment"@,
        UriType::HlsMediaManifest => "HlsMediaManifest"@,
        UriType::HlsMasterManifest => "HlsMasterManifest"@,
        UriType::HdsF4mManifest => "HdsF4mManifest"@,
        UriType::DashInitialisationSegment => "DashInitialisationSegment"@,
        UriType::DashSegment => "DashSegment"@,
        UriType::DashManifest => "DashManifest"@,
        UriType::Admin => "Admin"@,
        UriType::UnknownOther => "UnknownOther"@,
    }
}

impl UriType {
    /// The name of the kind.
    pub fn name(&self) -> (r: &'static str)
        ensures
            r@ == uri_type_name(*self),
    {
        match self {
            UriType::HdsBootstrap => "HdsBootstrap",
            UriType::HlsSegment => "HlsSegment",
            UriType::HdsSegment => "HdsSegment",
            UriType::HlsMediaManifest => "HlsMediaManifest",
            UriType::HlsMasterManifest => "HlsMasterManifest",
            UriType::HdsF4mManifest => "HdsF4mManifest",
            UriType::DashInitialisationSegment => "DashInitialisationSegment",
            UriType::DashSegment => "DashSegment",
            UriType::DashManifest => "DashManifest",
            UriType::Admin => "Admin",
            UriType::UnknownOther => "UnknownOther",
        }
    }
}

/// `a + b`, saturated at `u64::MAX`.
pub fn sat_add(a: u64, b: u64) -> (r: u64)
    ensures
        r as nat == sat((a + b) as nat),
{
    if a > u64::MAX - b {
        u64::MAX
    } else {
        a + b
    }
}

/// Counts keyed by a time slice and a text. vstd specifies `HashMap` for
/// integer keys only, and these keys pair a slice with a text, so the
/// counts are held as a list of unique keys.
pub struct TextCounts {
    entries: Vec<(i64, String, u64)>,
}

pub open spec fn text_key(slice: i64, t: Seq<char>) -> (int, Seq<char>) {
    (slice as int, t)
}

impl TextCounts {
    pub closed spec fn kv(&self) -> Seq<((int, Seq<char>), nat)> {
        self.entries@.map_values(|e: (i64, String, u64)| ((e.0 as int, e.1@), e.2 as nat))
    }

    /// The count of each key.
    pub closed spec fn counts(&self) -> Map<(int, Seq<char>), nat> {
        entries_map(self.kv())
    }

    /// No key is held twice.
    pub closed spec fn wf(&self) -> bool {
        unique_keys(self.kv())
    }

    pub proof fn lemma_bounded(&self)
        ensures
            bounded(self.counts()),
    {
        let kv = self.kv();
        assert forall|i: int| 0 <= i < kv.len() implies (#[trigger] kv[i]).1 <= u64::MAX by {
            assert(kv[i].1 == self.entries@[i].2 as nat);
        }
        lemma_entries_map_bounded(kv);
    }

    /// No counts.
    pub fn new() -> (r: TextCounts)
        ensures
            r.wf(),
            r.counts() == Map::<(int, Seq<char>), nat>::empty(),
    {
        let r = TextCounts { entries: Vec::new() };
        assert(r.kv().len() == 0);
        r
    }

    fn find(&self, slice: i64, text: &String) -> (r: Option<usize>)
        ensures
            match r {
                Some(i) => i < self.kv().len() && self.kv()[i as int].0 == text_key(slice, text@),
                None => forall|i: int| 0 <= i < self.kv().len() ==> (#[trigger] self.kv()[i]).0 != text_key(slice, text@),
            },
    {
        let mut i: usize = 0;
        while i < self.entries.len()
            invariant
                i <= self.entries@.len(),
                forall|j: int| 0 <= j < i ==> (#[trigger] self.kv()[j]).0 != text_key(slice, text@),
            decreases self.entries.len() - i,
        {
            let e = &self.entries[i];
            if e.0 == slice && e.1 == *text {
                return Some(i);
            }
            i = i + 1;
        }
        None
    }

    /// Adds `n` (saturating) to the count of the key.
    pub fn add(&mut self, slice: i64, text: &String, n: u64)
        requires
            old(self).wf(),
        ensures
            final(self).wf(),
            final(self).counts() == old(self).counts().insert(
                text_key(slice, text@),
                sat((count_in(old(self).counts(), text_key(slice, text@)) + n) as nat),
            ),
    {
        let ghost key = text_key(slice, text@);
        let ghost kv0 = self.kv();
        match self.find(slice, text) {
            Some(i) => {
                let cur = self.entries[i].2;
                let nv = sat_add(cur, n);
                proof {
                    lemma_entries_map_has(kv0, i as int);
                }
                self.entries.set(i, (slice, text.clone(), nv));
                proof {
                    assert(self.kv() =~= kv0.update(i as int, (key, nv as nat)));
                    lemma_entries_map_update(kv0, i as int, nv as nat);
                }
            },
            None => {
                proof {
                    lemma_entries_map_lacks(kv0, key);
                }
                self.entries.push((slice, text.clone(), n));
                proof {
                    assert(self.kv() =~= kv0.push((key, n as nat)));
                    assert(self.kv().drop_last() =~= kv0);
                }
            },
        }
    }

    /// The count of the key, zero where it has none.
    pub fn get(&self, slice: i64, text: &String) -> (r: u64)
        requires
            self.wf(),
        ensures
            r as nat == count_in(self.counts(), text_key(slice, text@)),
    {
        match self.find(slice, text) {
            Some(i) => {
                proof {
                    lemma_entries_map_has(self.kv(), i as int);
                }
                self.entries[i].2
            },
            None => {
                proof {
                    lemma_entries_map_lacks(self.kv(), text_key(slice, text@));
                }
                0
            },
        }
    }

    /// Adds every count of `other`.
    pub fn merge_from(&mut self, other: &TextCounts)
        requires
            old(self).wf(),
            other.wf(),
        ensures
            final(self).wf(),
            final(self).counts() == add_counts(old(self).counts(), other.counts()),
    {
        let ghost a = self.counts();
        let ghost okv = other.kv();
        proof {
            self.lemma_bounded();
            assert(okv.subrange(0, 0).len() == 0);
            assert(add_counts(a, entries_map(okv.subrange(0, 0))) =~= a);
        }
        let mut i: usize = 0;
        while i < other.entries.len()
            invariant
                i <= other.entries@.len(),
                okv == other.kv(),
                other.wf(),
                self.wf(),
                bounded(a),
                self.counts() == add_counts(a, entries_map(okv.subrange(0, i as int))),
            decreases other.entries.len() - i,
        {
            let e = &other.entries[i];
            let ghost b = entries_map(okv.subrange(0, i as int));
            let ghost k = okv[i as int].0;
            proof {
                let s1 = okv.subrange(0, i as int + 1);
                assert(s1.drop_last() =~= okv.subrange(0, i as int));
                assert(s1.last() == okv[i as int]);
                assert forall|j: int| 0 <= j < i implies (#[trigger] okv.subrange(0, i as int)[j]).0 != k by {
                    assert(okv.subrange(0, i as int)[j] == okv[j]);
                }
                lemma_entries_map_lacks(okv.subrange(0, i as int), k);
                lemma_add_counts_insert(a, b, k, okv[i as int].1);
            }
            self.add(e.0, &e.1, e.2);
            i = i + 1;
        }
        assert(okv.subrange(0, i as int) =~= okv);
    }
}

/// Texts in the order they were first seen, each once. vstd specifies
/// `HashSet` for integer keys only; these are texts.
pub struct TextSet {
    items: Vec<String>,
}

impl TextSet {
    /// The texts in the order they were first seen.
    pub closed spec fn order(&self) -> Seq<Seq<char>> {
        self.items@.map_values(|s: String| s@)
    }

    pub closed spec fn members(&self) -> Set<Seq<char>> {
        self.order().to_set()
    }

    pub closed spec fn wf(&self) -> bool {
        self.order().no_duplicates()
    }

    pub fn new() -> (r: TextSet)
        ensures
            r.wf(),
            r.members() == Set::<Seq<char>>::empty(),
            r.order().len() == 0,
    {
        let r = TextSet { items: Vec::new() };
        assert(r.members() =~= Set::<Seq<char>>::empty());
        r
    }

    /// Adds a text.
    pub fn insert(&mut self, t: &String)
        requires
            old(self).wf(),
        ensures
            final(self).wf(),
            final(self).members() == old(self).members().insert(t@),
    {
        let ghost o = self.order();
        let mut i: usize = 0;
        while i < self.items.len()
            invariant
                i <= self.items@.len(),
                o == self.order(),
                o.no_duplicates(),
                forall|j: int| 0 <= j < i ==> o[j] != t@,
            decreases self.items.len() - i,
        {
            if self.items[i] == *t {
                assert(o[i as int] == t@);
                assert(o.to_set() =~= o.to_set().insert(t@));
                return;
            }
            i = i + 1;
        }
        self.items.push(t.clone());
        assert(self.order() =~= o.push(t@));
        assert(self.order().to_set() =~= o.to_set().insert(t@)) by {
            assert forall|x: Seq<char>| #[trigger] o.push(t@).contains(x) <==> o.contains(x) || x == t@ by {
                if o.push(t@).contains(x) {
                    let j = choose|j: int| 0 <= j < o.push(t@).len() && o.push(t@)[j] == x;
                    if j < o.len() {
                        assert(o[j] == x);
                    }
                }
                if o.contains(x) {
                    let j = choose|j: int| 0 <= j < o.len() && o[j] == x;
                    assert(o.push(t@)[j] == x);
                }
                if x == t@ {
                    assert(o.push(t@)[o.len() as int] == x);
                }
            }
        }
    }

    /// Adds every text of `other`.
    pub fn merge_from(&mut self, other: &TextSet)
        requires
            old(self).wf(),
        ensures
            final(self).wf(),
            final(self).members() == old(self).members().union(other.members()),
    {
        let ghost a = self.members();
        let ghost oo = other.order();
        let mut i: usize = 0;
        assert(a.union(oo.subrange(0, 0).to_set()) =~= a);
        while i < other.items.len()
            invariant
                i <= other.items@.len(),
                oo == other.order(),
                self.wf(),
                self.members() == a.union(oo.subrange(0, i as int).to_set()),
            decreases other.items.len() - i,
        {
            self.insert(&other.items[i]);
            proof {
                let s0 = oo.subrange(0, i as int);
                let s1 = oo.subrange(0, i as int + 1);
                assert(s1 =~= s0.push(oo[i as int]));
                assert forall|x: Seq<char>| #[trigger] s1.contains(x) <==> s0.contains(x) || x == oo[i as int] by {
                    if s1.contains(x) {
                        let j = choose|j: int| 0 <= j < s1.len() && s1[j] == x;
                        if j < s0.len() {
                            assert(s0[j] == x);
                        }
                    }
                    if s0.contains(x) {
                        let j = choose|j: int| 0 <= j < s0.len() && s0[j] == x;
                        assert(s1[j] == x);
                    }
                    if x == oo[i as int] {
                        assert(s1[i as int] == x);
                    }
                }
                assert(a.union(s1.to_set()) =~= a.union(s0.to_set()).insert(oo[i as int]));
            }
            i = i + 1;
        }
        assert(oo.subrange(0, i as int) =~= oo);
    }

    /// The texts, in the order they were first seen.
    pub fn items(&self) -> (r: &Vec<String>)
        ensures
            r@.map_values(|s: String| s@) == self.order(),
    {
        &self.items
    }
}

/// Time slices in increasing order, each once. The reports list the
/// slices in increasing order, which a `HashSet` does not give without a
/// sort that vstd does not specify; a sorted vector gives it directly.
pub struct SliceSet {
    items: Vec<i64>,
}

impl SliceSet {
    /// The slices in increasing order.
    pub closed spec fn order(&self) -> Seq<i64> {
        self.items@
    }

    pub closed spec fn members(&self) -> Set<int> {
        self.items@.map_values(|x: i64| x as int).to_set()
    }

    pub closed spec fn wf(&self) -> bool {
        forall|i: int, j: int| 0 <= i < j < self.items@.len() ==> self.items@[i] < self.items@[j]
    }

    proof fn lemma_members(&self, x: int)
        ensures
            self.members().contains(x) <==> exists|j: int| 0 <= j < self.items@.len() && self.items@[j] as int == x,
    {
        let m = self.items@.map_values(|x: i64| x as int);
        if self.members().contains(x) {
            let j = choose|j: int| 0 <= j < m.len() && m[j] == x;
            assert(self.items@[j] as int == x);
        }
        if exists|j: int| 0 <= j < self.items@.len() && self.items@[j] as int == x {
            let j = choose|j: int| 0 <= j < self.items@.len() && self.items@[j] as int == x;
            assert(m[j] == x);
        }
    }

    pub fn new() -> (r: SliceSet)
        ensures
            r.wf(),
            r.members() == Set::<int>::empty(),
            r.order().len() == 0,
    {
        let r = SliceSet { items: Vec::new() };
        assert(r.members() =~= Set::<int>::empty());
        r
    }

    /// Adds a slice, keeping the order.
    pub fn insert(&mut self, x: i64)
        requires
            old(self).wf(),
        ensures
            final(self).wf(),
            final(self).members() == old(self).members().insert(x as int),
    {
        let ghost old_items = self.items@;
        let mut p: usize = 0;
        while p < self.items.len() && self.items[p] < x
            invariant
                p <= self.items@.len(),
                self.items@ == old_items,
                forall|j: int| 0 <= j < p ==> self.items@[j] < x,
            decreases self.items.len() - p,
        {
            p = p + 1;
        }
        if p < self.items.len() && self.items[p] == x {
            proof {
                old(self).lemma_members(x as int);
                assert(self.members() =~= old(self).members().insert(x as int)) by {
                    assert forall|y: int| self.members().contains(y) <==> old(self).members().contains(y) || y == x by {
                        self.lemma_members(y);
                        old(self).lemma_members(y);
                    }
                }
            }
            return;
        }
        self.items.insert(p, x);
        proof {
            assert(self.items@ == old_items.insert(p as int, x));
            assert forall|i: int, j: int| 0 <= i < j < self.items@.len() implies self.items@[i] < self.items@[j] by {
                if j < p {
                } else if i < p && j == p {
                } else if i < p {
                    assert(self.items@[j] == old_items[j - 1]);
                    if p < old_items.len() {
                        assert(old_items[p as int] >= x);
                        assert(old_items[p as int] <= old_items[j - 1]);
                    }
                } else if i == p {
                    assert(self.items@[j] == old_items[j - 1]);
                    assert(old_items[p as int] > x);
                    assert(old_items[p as int] <= old_items[j - 1]);
                } else {
                    assert(self.items@[j] == old_items[j - 1]);
                    assert(self.items@[i] == old_items[i - 1]);
                }
            }
            assert forall|y: int| self.members().contains(y) <==> old(self).members().contains(y) || y == x by {
                self.lemma_members(y);
                old(self).lemma_members(y);
                if exists|j: int| 0 <= j < old_items.len() && old_items[j] as int == y {
                    let j = choose|j: int| 0 <= j < old_items.len() && old_items[j] as int == y;
                    if j < p {
                        assert(self.items@[j] == old_items[j]);
                    } else {
                        assert(self.items@[j + 1] == old_items[j]);
                    }
                }
                if y == x {
                    assert(self.items@[p as int] == x);
                }
                if exists|j: int| 0 <= j < self.items@.len() && self.items@[j] as int == y {
                    let j = choose|j: int| 0 <= j < self.items@.len() && self.items@[j] as int == y;
                    if j < p {
                        assert(self.items@[j] == old_items[j]);
                    } else if j > p {
                        assert(self.items@[j] == old_items[j - 1]);
                    }
                }
            }
            assert(self.members() =~= old(self).members().insert(x as int));
        }
    }

    /// Adds every slice of `other`.
    pub fn merge_from(&mut self, other: &SliceSet)
        requires
            old(self).wf(),
        ensures
            final(self).wf(),
            final(self).members() == old(self).members().union(other.members()),
    {
        let ghost a = self.members();
        let mut i: usize = 0;
        while i < other.items.len()
            invariant
                i <= other.items@.len(),
                self.wf(),
                forall|y: int| #[trigger] self.members().contains(y) <==> a.contains(y) || exists|j: int| 0 <= j < i && other.items@[j] as int == y,
            decreases other.items.len() - i,
        {
            let ghost before = self.members();
            self.insert(other.items[i]);
            proof {
                assert forall|y: int| #[trigger] self.members().contains(y) <==> a.contains(y) || exists|j: int| 0 <= j < i + 1 && other.items@[j] as int == y by {
                    if y == other.items@[i as int] as int {
                    } else if exists|j: int| 0 <= j < i + 1 && other.items@[j] as int == y {
                        let j = choose|j: int| 0 <= j < i + 1 && other.items@[j] as int == y;
                        assert(j < i);
                        assert(before.contains(y));
                    }
                    if before.contains(y) {
                        if !a.contains(y) {
                            let j = choose|j: int| 0 <= j < i && other.items@[j] as int == y;
                            assert(0 <= j < i + 1 && other.items@[j] as int == y);
                        }
                    }
                }
            }
            i = i + 1;
        }
        assert(self.members() =~= a.union(other.members())) by {
            assert forall|y: int| self.members().contains(y) <==> a.union(other.members()).contains(y) by {
                other.lemma_members(y);
            }
        }
    }

    /// The slices, in increasing order.
    pub fn items(&self) -> (r: &Vec<i64>)
        ensures
            r@ == self.order(),
    {
        &self.items
    }
}

/// The histogram of a slice, empty where there is none.
pub open spec fn hist_get(m: Map<int, Map<u64, nat>>, k: int) -> Map<u64, nat> {
    if m.contains_key(k) {
        m[k]
    } else {
        Map::empty()
    }
}

/// The histograms of both, added slice by slice.
pub open spec fn add_hists(a: Map<int, Map<u64, nat>>, b: Map<int, Map<u64, nat>>) -> Map<int, Map<u64, nat>> {
    Map::new(|k: int| a.contains_key(k) || b.contains_key(k), |k: int| add_counts(hist_get(a, k), hist_get(b, k)))
}

proof fn lemma_bump_keeps(m: Map<u64, nat>, v: u64)
    requires
        trackable(m),
        bounded(m),
        positive(m),
        v <= HISTOGRAM_LIMIT,
    ensures
        trackable(bump(m, equivalent_top(v))),
        bounded(bump(m, equivalent_top(v))),
        positive(bump(m, equivalent_top(v))),
{
    let b = bump(m, equivalent_top(v));
    assert forall|k: u64| #[trigger] b.contains_key(k) implies exists|w: u64| w <= HISTOGRAM_LIMIT && k == equivalent_top(w) by {
        if k != equivalent_top(v) {
            assert(m.contains_key(k));
        }
    }
}

proof fn lemma_add_keeps(a: Map<u64, nat>, b: Map<u64, nat>)
    requires
        trackable(a),
        trackable(b),
        positive(a),
        positive(b),
    ensures
        trackable(add_counts(a, b)),
        bounded(add_counts(a, b)),
        positive(add_counts(a, b)),
{
    let c = add_counts(a, b);
    assert forall|k: u64| #[trigger] c.contains_key(k) implies exists|w: u64| w <= HISTOGRAM_LIMIT && k == equivalent_top(w) by {
        if a.contains_key(k) {
        } else {
            assert(b.contains_key(k));
        }
    }
}

/// Latency histograms keyed by time slice. A `HashMap<i64, _>` is
/// specified by vstd, but merging walks the other side's entries, which
/// vstd specifies for a `Vec` by index and for a `HashMap` only through an
/// iterator whose order it leaves open; a list of unique keys keeps that
/// walk and its proof plain.
pub struct SliceHistograms {
    entries: Vec<(i64, LatencyHistogram)>,
}

impl SliceHistograms {
    closed spec fn kv(&self) -> Seq<(int, Map<u64, nat>)> {
        self.entries@.map_values(|e: (i64, LatencyHistogram)| (e.0 as int, histogram_counts(e.1)))
    }

    /// The counts of each slice's histogram.
    pub closed spec fn hists(&self) -> Map<int, Map<u64, nat>> {
        entries_map(self.kv())
    }

    pub closed spec fn wf(&self) -> bool {
        &&& unique_keys(self.kv())
        &&& forall|i: int|
            0 <= i < self.kv().len() ==> trackable(#[trigger] self.kv()[i].1) && bounded(self.kv()[i].1) && positive(
                self.kv()[i].1,
            )
    }

    proof fn lemma_hist(&self, k: int)
        requires
            self.wf(),
        ensures
            trackable(hist_get(self.hists(), k)),
            bounded(hist_get(self.hists(), k)),
    {
        if self.hists().contains_key(k) {
            crate::tally::lemma_entries_map_keys(self.kv(), k);
            let i = choose|i: int| 0 <= i < self.kv().len() && (#[trigger] self.kv()[i]).0 == k;
            lemma_entries_map_has(self.kv(), i);
        } else {
            assert(trackable(Map::<u64, nat>::empty()));
        }
    }

    pub fn new() -> (r: SliceHistograms)
        ensures
            r.wf(),
            r.hists() == Map::<int, Map<u64, nat>>::empty(),
    {
        let r = SliceHistograms { entries: Vec::new() };
        assert(r.kv().len() == 0);
        r
    }

    fn find(&self, slice: i64) -> (r: Option<usize>)
        ensures
            match r {
                Some(i) => i < self.kv().len() && self.kv()[i as int].0 == slice as int,
                None => forall|i: int| 0 <= i < self.kv().len() ==> (#[trigger] self.kv()[i]).0 != slice as int,
            },
    {
        let mut i: usize = 0;
        while i < self.entries.len()
            invariant
                i <= self.entries@.len(),
                forall|j: int| 0 <= j < i ==> (#[trigger] self.kv()[j]).0 != slice as int,
            decreases self.entries.len() - i,
        {
            if self.entries[i].0 == slice {
                return Some(i);
            }
            i = i + 1;
        }
        None
    }

    /// Records `v` in the histogram of `slice`.
    pub fn record(&mut self, slice: i64, v: u64)
        requires
            old(self).wf(),
            v <= HISTOGRAM_LIMIT,
        ensures
            final(self).wf(),
            final(self).hists() == old(self).hists().insert(
                slice as int,
                bump(hist_get(old(self).hists(), slice as int), equivalent_top(v)),
            ),
    {
        let ghost kv0 = self.kv();
        match self.find(slice) {
            Some(i) => {
                proof {
                    lemma_entries_map_has(kv0, i as int);
                }
                let (k, mut h) = self.entries.remove(i);
                proof {
                    lemma_bump_keeps(histogram_counts(h), v);
                }
                record_value(&mut h, v);
                self.entries.insert(i, (k, h));
                proof {
                    assert(self.kv() =~= kv0.update(i as int, (slice as int, histogram_counts(h))));
                    lemma_entries_map_update(kv0, i as int, histogram_counts(h));
                }
            },
            None => {
                proof {
                    lemma_entries_map_lacks(kv0, slice as int);
                    assert(trackable(Map::<u64, nat>::empty()));
                    lemma_bump_keeps(Map::empty(), v);
                }
                let mut h = new_histogram();
                record_value(&mut h, v);
                self.entries.push((slice, h));
                proof {
                    assert(self.kv() =~= kv0.push((slice as int, histogram_counts(h))));
                    assert(self.kv().drop_last() =~= kv0);
                }
            },
        }
    }

    /// Adds the histograms of `other`, slice by slice.
    pub fn merge_from(&mut self, other: &SliceHistograms)
        requires
            old(self).wf(),
            other.wf(),
        ensures
            final(self).wf(),
            final(self).hists() == add_hists(old(self).hists(), other.hists()),
    {
        let ghost a = self.hists();
        let ghost okv = other.kv();
        proof {
            assert(okv.subrange(0, 0).len() == 0);
            assert forall|k: int| a.contains_key(k) implies #[trigger] add_hists(a, Map::empty())[k] == a[k] by {
                self.lemma_hist(k);
                crate::tally::lemma_add_counts_commutes(a[k], Map::<u64, nat>::empty());
                crate::tally::lemma_add_counts_empty(a[k]);
            }
            assert(add_hists(a, entries_map(okv.subrange(0, 0))) =~= a);
        }
        let mut i: usize = 0;
        while i < other.entries.len()
            invariant
                i <= other.entries@.len(),
                okv == other.kv(),
                other.wf(),
                self.wf(),
                forall|k: int| #[trigger] a.contains_key(k) ==> bounded(a[k]),
                self.hists() == add_hists(a, entries_map(okv.subrange(0, i as int))),
            decreases other.entries.len() - i,
        {
            let ghost b = entries_map(okv.subrange(0, i as int));
            let ghost k = okv[i as int].0;
            let ghost hv = okv[i as int].1;
            let ghost kv0 = self.kv();
            proof {
                let s1 = okv.subrange(0, i as int + 1);
                assert(s1.drop_last() =~= okv.subrange(0, i as int));
                assert(s1.last() == okv[i as int]);
                assert forall|j: int| 0 <= j < i implies (#[trigger] okv.subrange(0, i as int)[j]).0 != k by {
                    assert(okv.subrange(0, i as int)[j] == okv[j]);
                }
                lemma_entries_map_lacks(okv.subrange(0, i as int), k);
                if a.contains_key(k) {
                    crate::tally::lemma_add_counts_commutes(a[k], Map::<u64, nat>::empty());
                    crate::tally::lemma_add_counts_empty(a[k]);
                }
                assert(add_hists(a, b.insert(k, hv)) =~= add_hists(a, b).insert(
                    k,
                    add_counts(hist_get(add_hists(a, b), k), hv),
                ));
                assert(trackable(okv[i as int].1));
                self.lemma_hist(k);
            }
            let slice = other.entries[i].0;
            match self.find(slice) {
                Some(j) => {
                    proof {
                        lemma_entries_map_has(kv0, j as int);
                    }
                    let (key, mut h) = self.entries.remove(j);
                    proof {
                        lemma_add_keeps(histogram_counts(h), hv);
                    }
                    add_histogram(&mut h, &other.entries[i].1);
                    self.entries.insert(j, (key, h));
                    proof {
                        assert(self.kv() =~= kv0.update(j as int, (k, histogram_counts(h))));
                        lemma_entries_map_update(kv0, j as int, histogram_counts(h));
                    }
                },
                None => {
                    proof {
                        lemma_entries_map_lacks(kv0, k);
                        assert(trackable(Map::<u64, nat>::empty()));
                        lemma_add_keeps(Map::empty(), hv);
                    }
                    let mut h = new_histogram();
                    add_histogram(&mut h, &other.entries[i].1);
                    self.entries.push((slice, h));
                    proof {
                        assert(self.kv() =~= kv0.push((k, histogram_counts(h))));
                        assert(self.kv().drop_last() =~= kv0);
                    }
                },
            }
            i = i + 1;
        }
        assert(okv.subrange(0, i as int) =~= okv);
    }

    /// The buckets of the histogram of `slice`, in increasing order.
    pub fn recorded_at(&self, slice: i64) -> (r: Vec<(u64, u64)>)
        requires
            self.wf(),
        ensures
            increasing_keys(r@),
            pairs_map(r@) == hist_get(self.hists(), slice as int),
    {
        match self.find(slice) {
            Some(i) => {
                proof {
                    lemma_entries_map_has(self.kv(), i as int);
                }
                bucket_counts(&self.entries[i].1)
            },
            None => {
                proof {
                    lemma_entries_map_lacks(self.kv(), slice as int);
                }
                let r: Vec<(u64, u64)> = Vec::new();
                assert(pairs_map(r@) =~= Map::<u64, nat>::empty());
                r
            },
        }
    }
}

/// The earliest slice a consumer holds; its slice of service times is
/// representable too.
pub const EARLIEST_SLICE: i64 = -9223372036854774608;

/// The width of a time slice for counts by status and by kind of URI.
pub const STATUS_SLICE_SECONDS: i64 = 300;

/// The width of a time slice for service times.
pub const LATENCY_SLICE_SECONDS: i64 = 1200;

/// The start of the slice of width `w` that holds `t`.
pub open spec fn timeslice_of(t: int, w: int) -> int {
    (t / w) * w
}

/// The start of the slice of width `seconds` that holds the time `t`:
/// `t` rounded down to a multiple of `seconds`.
pub fn timeslice(t: i64, seconds: i64) -> (r: i64)
    requires
        0 < seconds,
        t >= i64::MIN + seconds,
    ensures
        r as int == timeslice_of(t as int, seconds as int),
        t - seconds < r <= t,
{
    let rem = match t.checked_rem_euclid(seconds) {
        Some(x) => x,
        None => 0,
    };
    proof {
        vstd::arithmetic::div_mod::lemma_fundamental_div_mod(t as int, seconds as int);
        assert(rem as int == (t as int) % (seconds as int));
        assert(0 <= rem < seconds);
        let q = (t as int) / (seconds as int);
        assert(q * (seconds as int) == (seconds as int) * q) by (nonlinear_arith);
    }
    t - rem
}

/// What a consumer holds: counts by slice and status, the slices, the
/// statuses, counts by slice and kind of URI (by the kind's name), the
/// kinds, the service-time histogram of each slice, and that of all.
pub struct ConsumerModel {
    pub status_counts: Map<(int, Seq<char>), nat>,
    pub timeslices: Set<int>,
    pub statuses: Set<Seq<char>>,
    pub uritype_counts: Map<(int, Seq<char>), nat>,
    pub uritypes: Set<Seq<char>>,
    pub slice_hists: Map<int, Map<u64, nat>>,
    pub total_hist: Map<u64, nat>,
}

/// A consumer that has seen nothing.
pub open spec fn empty_model() -> ConsumerModel {
    ConsumerModel {
        status_counts: Map::empty(),
        timeslices: Set::empty(),
        statuses: Set::empty(),
        uritype_counts: Map::empty(),
        uritypes: Set::empty(),
        slice_hists: Map::empty(),
        total_hist: Map::empty(),
    }
}

/// `m` with one more at `k`, saturating.
pub open spec fn count_one<K>(m: Map<K, nat>, k: K) -> Map<K, nat> {
    m.insert(k, sat((count_in(m, k) + 1) as nat))
}

/// The kind of URI of a record, by name.
pub open spec fn record_uritype(r: Record) -> Seq<char> {
    uri_type_name(uri_type_at(regex_set_first(uri_patterns(), r.request_uri@)))
}

/// The consumer after it has seen one more record. Service times beyond
/// what the histograms track are not recorded.
pub open spec fn handled(m: ConsumerModel, r: Record) -> ConsumerModel {
    let s = timeslice_of(r.timestamp as int, 300);
    let l = timeslice_of(r.timestamp as int, 1200);
    let st = r.response_status@;
    let ut = record_uritype(r);
    let v = r.response_time_micros;
    ConsumerModel {
        status_counts: count_one(m.status_counts, (s, st)),
        timeslices: m.timeslices.insert(s),
        statuses: m.statuses.insert(st),
        uritype_counts: count_one(m.uritype_counts, (s, ut)),
        uritypes: m.uritypes.insert(ut),
        slice_hists: if v <= HISTOGRAM_LIMIT {
            m.slice_hists.insert(l, bump(hist_get(m.slice_hists, l), equivalent_top(v)))
        } else {
            m.slice_hists
        },
        total_hist: if v <= HISTOGRAM_LIMIT {
            bump(m.total_hist, equivalent_top(v))
        } else {
            m.total_hist
        },
    }
}

/// Two consumers combined: sets joined, counts and histograms added.
pub open spec fn merged(a: ConsumerModel, b: ConsumerModel) -> ConsumerModel {
    ConsumerModel {
        status_counts: add_counts(a.status_counts, b.status_counts),
        timeslices: a.timeslices.union(b.timeslices),
        statuses: a.statuses.union(b.statuses),
        uritype_counts: add_counts(a.uritype_counts, b.uritype_counts),
        uritypes: a.uritypes.union(b.uritypes),
        slice_hists: add_hists(a.slice_hists, b.slice_hists),
        total_hist: add_counts(a.total_hist, b.total_hist),
    }
}

/// Accumulates the records of one worker.
pub struct Consumer {
    servicetime_hist_by_timeslice: SliceHistograms,
    servicetime_hist: LatencyHistogram,
    by_status_timeslice: TextCounts,
    timeslices: SliceSet,
    statuses: TextSet,
    by_uritype_timeslice: TextCounts,
    uritypes: TextSet,
}

impl Consumer {
    pub closed spec fn model(&self) -> ConsumerModel {
        ConsumerModel {
            status_counts: self.by_status_timeslice.counts(),
            timeslices: self.timeslices.members(),
            statuses: self.statuses.members(),
            uritype_counts: self.by_uritype_timeslice.counts(),
            uritypes: self.uritypes.members(),
            slice_hists: self.servicetime_hist_by_timeslice.hists(),
            total_hist: histogram_counts(self.servicetime_hist),
        }
    }

    pub closed spec fn wf(&self) -> bool {
        &&& self.servicetime_hist_by_timeslice.wf()
        &&& trackable(histogram_counts(self.servicetime_hist))
        &&& bounded(histogram_counts(self.servicetime_hist))
        &&& positive(histogram_counts(self.servicetime_hist))
        &&& self.by_status_timeslice.wf()
        &&& self.timeslices.wf()
        &&& self.statuses.wf()
        &&& self.by_uritype_timeslice.wf()
        &&& self.uritypes.wf()
        &&& forall|x: int| #[trigger] self.timeslices.members().contains(x) ==> x >= EARLIEST_SLICE
    }

    /// A consumer that has seen nothing.
    pub fn new() -> (r: Consumer)
        ensures
            r.wf(),
            r.model() == empty_model(),
    {
        let r = Consumer {
            servicetime_hist_by_timeslice: SliceHistograms::new(),
            servicetime_hist: new_histogram(),
            by_status_timeslice: TextCounts::new(),
            timeslices: SliceSet::new(),
            statuses: TextSet::new(),
            by_uritype_timeslice: TextCounts::new(),
            uritypes: TextSet::new(),
        };
        assert(trackable(histogram_counts(r.servicetime_hist)));
        assert(r.model().total_hist =~= Map::<u64, nat>::empty());
        r
    }

    /// Counts a record: its status and its kind of URI in its slice of
    /// `STATUS_SLICE_SECONDS`, its service time in its slice of
    /// `LATENCY_SLICE_SECONDS` and overall.
    pub fn handle(&mut self, r: Record)
        requires
            old(self).wf(),
            r.timestamp >= EARLIEST_TIMESTAMP,
        ensures
            final(self).wf(),
            final(self).model() == handled(old(self).model(), r),
    {
        let slice = timeslice(r.timestamp, STATUS_SLICE_SECONDS);
        let ghost before = self.timeslices.members();
        self.timeslices.insert(slice);
        assert(forall|x: int| #[trigger] self.timeslices.members().contains(x) ==> before.contains(x) || x == slice);
        self.record_http_status(slice, &r.response_status);
        self.record_uritype(slice, r.request_uri.as_str());
        let lslice = timeslice(r.timestamp, LATENCY_SLICE_SECONDS);
        self.record_service_time(lslice, r.response_time_micros);
        assert(self.model() == handled(old(self).model(), r));
    }

    fn record_http_status(&mut self, slice: i64, response_status: &String)
        requires
            old(self).wf(),
        ensures
            final(self).wf(),
            final(self).model() == (ConsumerModel {
                status_counts: count_one(old(self).model().status_counts, (slice as int, response_status@)),
                statuses: old(self).model().statuses.insert(response_status@),
                ..old(self).model()
            }),
    {
        self.by_status_timeslice.add(slice, response_status, 1);
        self.statuses.insert(response_status);
    }

    fn record_uritype(&mut self, slice: i64, request_uri: &str)
        requires
            old(self).wf(),
        ensures
            final(self).wf(),
            final(self).model() == (ConsumerModel {
                uritype_counts: count_one(
                    old(self).model().uritype_counts,
                    (slice as int, uri_type_name(uri_type_at(regex_set_first(uri_patterns(), request_uri@)))),
                ),
                uritypes: old(self).model().uritypes.insert(
                    uri_type_name(uri_type_at(regex_set_first(uri_patterns(), request_uri@))),
                ),
                ..old(self).model()
            }),
    {
        let uritype = classify(request_uri);
        let name = String::from_str(uritype.name());
        self.by_uritype_timeslice.add(slice, &name, 1);
        self.uritypes.insert(&name);
    }

    fn record_service_time(&mut self, slice: i64, response_time_micros: u64)
        requires
            old(self).wf(),
        ensures
            final(self).wf(),
            final(self).model() == (ConsumerModel {
                slice_hists: if response_time_micros <= HISTOGRAM_LIMIT {
                    old(self).model().slice_hists.insert(
                        slice as int,
                        bump(hist_get(old(self).model().slice_hists, slice as int), equivalent_top(response_time_micros)),
                    )
                } else {
                    old(self).model().slice_hists
                },
                total_hist: if response_time_micros <= HISTOGRAM_LIMIT {
                    bump(old(self).model().total_hist, equivalent_top(response_time_micros))
                } else {
                    old(self).model().total_hist
                },
                ..old(self).model()
            }),
    {
        if response_time_micros <= HISTOGRAM_LIMIT {
            self.servicetime_hist_by_timeslice.record(slice, response_time_micros);
            proof {
                lemma_bump_keeps(histogram_counts(self.servicetime_hist), response_time_micros);
            }
            record_value(&mut self.servicetime_hist, response_time_micros);
        }
    }

    /// Adds everything that `other` has seen.
    pub fn merge(&mut self, other: &Consumer)
        requires
            old(self).wf(),
            other.wf(),
        ensures
            final(self).wf(),
            final(self).model() == merged(old(self).model(), other.model()),
    {
        self.timeslices.merge_from(&other.timeslices);
        assert(forall|x: int| #[trigger] self.timeslices.members().contains(x) ==> old(self).timeslices.members().contains(x) || other.timeslices.members().contains(x));
        self.servicetime_hist_by_timeslice.merge_from(&other.servicetime_hist_by_timeslice);
        self.statuses.merge_from(&other.statuses);
        self.by_status_timeslice.merge_from(&other.by_status_timeslice);
        self.uritypes.merge_from(&other.uritypes);
        self.by_uritype_timeslice.merge_from(&other.by_uritype_timeslice);
        proof {
            lemma_add_keeps(histogram_counts(self.servicetime_hist), histogram_counts(other.servicetime_hist));
        }
        add_histogram(&mut self.servicetime_hist, &other.servicetime_hist);
        assert(self.model() == merged(old(self).model(), other.model()));
    }
}

proof fn lemma_add_hists_commutes(a: Map<int, Map<u64, nat>>, b: Map<int, Map<u64, nat>>)
    ensures
        add_hists(a, b) == add_hists(b, a),
{
    assert forall|k: int| #[trigger] add_hists(a, b).contains_key(k) implies add_hists(a, b)[k] == add_hists(b, a)[k] by {
        lemma_add_counts_commutes(hist_get(a, k), hist_get(b, k));
    }
    assert(add_hists(a, b) =~= add_hists(b, a));
}

proof fn lemma_add_hists_associates(
    a: Map<int, Map<u64, nat>>,
    b: Map<int, Map<u64, nat>>,
    c: Map<int, Map<u64, nat>>,
)
    ensures
        add_hists(add_hists(a, b), c) == add_hists(a, add_hists(b, c)),
{
    let l = add_hists(add_hists(a, b), c);
    let r = add_hists(a, add_hists(b, c));
    assert forall|k: int| #[trigger] l.contains_key(k) implies l[k] == r[k] by {
        lemma_add_counts_associates(hist_get(a, k), hist_get(b, k), hist_get(c, k));
        assert(hist_get(add_hists(a, b), k) =~= add_counts(hist_get(a, k), hist_get(b, k)));
        assert(hist_get(add_hists(b, c), k) =~= add_counts(hist_get(b, k), hist_get(c, k)));
    }
    assert(l =~= r);
}

/// Merging is commutative: `a` merged with `b` holds what `b` merged with
/// `a` holds, set for set, count for count and histogram for histogram.
pub proof fn law_merge_commutes(a: Consumer, b: Consumer)
    ensures
        merged(a.model(), b.model()) == merged(b.model(), a.model()),
{
    let x = a.model();
    let y = b.model();
    lemma_add_counts_commutes(x.status_counts, y.status_counts);
    lemma_add_counts_commutes(x.uritype_counts, y.uritype_counts);
    lemma_add_counts_commutes(x.total_hist, y.total_hist);
    lemma_add_hists_commutes(x.slice_hists, y.slice_hists);
    assert(x.timeslices.union(y.timeslices) =~= y.timeslices.union(x.timeslices));
    assert(x.statuses.union(y.statuses) =~= y.statuses.union(x.statuses));
    assert(x.uritypes.union(y.uritypes) =~= y.uritypes.union(x.uritypes));
}

/// Merging is associative: merging `a` with `b` and then with `c` holds
/// what merging `a` with the merge of `b` and `c` holds.
pub proof fn law_merge_associates(a: Consumer, b: Consumer, c: Consumer)
    ensures
        merged(merged(a.model(), b.model()), c.model()) == merged(a.model(), merged(b.model(), c.model())),
{
    let x = a.model();
    let y = b.model();
    let z = c.model();
    lemma_add_counts_associates(x.status_counts, y.status_counts, z.status_counts);
    lemma_add_counts_associates(x.uritype_counts, y.uritype_counts, z.uritype_counts);
    lemma_add_counts_associates(x.total_hist, y.total_hist, z.total_hist);
    lemma_add_hists_associates(x.slice_hists, y.slice_hists, z.slice_hists);
    assert(x.timeslices.union(y.timeslices).union(z.timeslices) =~= x.timeslices.union(y.timeslices.union(z.timeslices)));
    assert(x.statuses.union(y.statuses).union(z.statuses) =~= x.statuses.union(y.statuses.union(z.statuses)));
    assert(x.uritypes.union(y.uritypes).union(z.uritypes) =~= x.uritypes.union(y.uritypes.union(z.uritypes)));
}

/// The word that heads the first column of every report.
pub open spec fn timeslice_word() -> Seq<char> {
    seq!['t', 'i', 'm', 'e', 's', 'l', 'i', 'c', 'e']
}

/// The header row: `timeslice`, then a tab and each column.
pub open spec fn tsv_header(cols: Seq<Seq<char>>) -> Seq<char>
    decreases cols.len(),
{
    if cols.len() == 0 {
        timeslice_word()
    } else {
        tsv_header(cols.drop_last()) + seq!['\t'] + cols.last()
    }
}

/// The cells of a row, each followed by a tab.
pub open spec fn tsv_cells(cells: Seq<nat>) -> Seq<char>
    decreases cells.len(),
{
    if cells.len() == 0 {
        seq![]
    } else {
        tsv_cells(cells.drop_last()) + decimal_text(cells.last()) + seq!['\t']
    }
}

/// The data rows: each slice, a tab, its cells, a newline.
pub open spec fn tsv_rows(rows: Seq<int>, cells: Seq<Seq<nat>>) -> Seq<char>
    decreases rows.len(),
{
    if rows.len() == 0 || cells.len() == 0 {
        seq![]
    } else {
        tsv_rows(rows.drop_last(), cells.drop_last()) + signed_decimal_text(rows.last()) + seq!['\t']
            + tsv_cells(cells.last()) + seq!['\n']
    }
}

/// A whole report.
pub open spec fn tsv_table(cols: Seq<Seq<char>>, rows: Seq<int>, cells: Seq<Seq<nat>>) -> Seq<char> {
    tsv_header(cols) + seq!['\n'] + tsv_rows(rows, cells)
}

/// The count of each column in each row, zero where there is none.
pub open spec fn count_cells(counts: Map<(int, Seq<char>), nat>, cols: Seq<Seq<char>>, rows: Seq<int>) -> Seq<Seq<nat>> {
    Seq::new(rows.len(), |r: int| Seq::new(cols.len(), |c: int| count_in(counts, (rows[r], cols[c]))))
}

/// The count of each value in the latency histogram of each row's slice.
pub open spec fn latency_cells(hists: Map<int, Map<u64, nat>>, vals: Seq<u64>, rows: Seq<int>) -> Seq<Seq<nat>> {
    Seq::new(
        rows.len(),
        |r: int| Seq::new(vals.len(), |c: int| count_in(hist_get(hists, timeslice_of(rows[r], 1200)), vals[c])),
    )
}

pub open spec fn decimal_columns(vals: Seq<u64>) -> Seq<Seq<char>> {
    vals.map_values(|v: u64| decimal_text(v as nat))
}

/// The values strictly increase.
pub open spec fn increasing(vals: Seq<u64>) -> bool {
    forall|i: int, j: int| 0 <= i < j < vals.len() ==> vals[i] < vals[j]
}

pub open spec fn views_of(v: Seq<Vec<char>>) -> Seq<Seq<char>> {
    v.map_values(|x: Vec<char>| x@)
}

pub open spec fn cells_of(v: Seq<Vec<u64>>) -> Seq<Seq<nat>> {
    v.map_values(|x: Vec<u64>| x@.map_values(|n: u64| n as nat))
}

/// Renders a report: a header of `timeslice` and the columns, then a row
/// for each slice with its cells. Every cell, data row and column label is
/// followed by a tab or preceded by one as the format has it.
pub fn render_tsv(cols: &Vec<Vec<char>>, rows: &Vec<i64>, cells: &Vec<Vec<u64>>) -> (r: String)
    requires
        rows@.len() == cells@.len(),
    ensures
        r@ == tsv_table(views_of(cols@), rows@.map_values(|x: i64| x as int), cells_of(cells@)),
{
    let mut out: Vec<char> = vec!['t', 'i', 'm', 'e', 's', 'l', 'i', 'c', 'e'];
    assert(out@ =~= tsv_header(views_of(cols@).subrange(0, 0)));
    let mut c: usize = 0;
    while c < cols.len()
        invariant
            c <= cols@.len(),
            out@ == tsv_header(views_of(cols@).subrange(0, c as int)),
        decreases cols.len() - c,
    {
        out.push('\t');
        push_chars(&mut out, &cols[c]);
        proof {
            let s1 = views_of(cols@).subrange(0, c as int + 1);
            assert(s1.drop_last() =~= views_of(cols@).subrange(0, c as int));
        }
        c = c + 1;
    }
    assert(views_of(cols@).subrange(0, c as int) =~= views_of(cols@));
    out.push('\n');
    let ghost head = out@;
    let ghost rs = rows@.map_values(|x: i64| x as int);
    let ghost cs = cells_of(cells@);
    let mut i: usize = 0;
    assert(out@ =~= head + tsv_rows(rs.subrange(0, 0), cs.subrange(0, 0)));
    while i < rows.len()
        invariant
            i <= rows@.len(),
            rows@.len() == cells@.len(),
            rs == rows@.map_values(|x: i64| x as int),
            cs == cells_of(cells@),
            out@ == head + tsv_rows(rs.subrange(0, i as int), cs.subrange(0, i as int)),
        decreases rows.len() - i,
    {
        let ghost before = out@;
        push_signed_decimal(&mut out, rows[i]);
        out.push('\t');
        let ghost row_start = out@;
        let row = &cells[i];
        let ghost rc = cs[i as int];
        assert(rc == row@.map_values(|n: u64| n as nat));
        let mut j: usize = 0;
        assert(out@ =~= row_start + tsv_cells(rc.subrange(0, 0)));
        while j < row.len()
            invariant
                j <= row@.len(),
                rc == row@.map_values(|n: u64| n as nat),
                out@ == row_start + tsv_cells(rc.subrange(0, j as int)),
            decreases row.len() - j,
        {
            push_decimal(&mut out, row[j]);
            out.push('\t');
            proof {
                let s1 = rc.subrange(0, j as int + 1);
                assert(s1.drop_last() =~= rc.subrange(0, j as int));
                assert(out@ =~= row_start + tsv_cells(s1));
            }
            j = j + 1;
        }
        assert(rc.subrange(0, j as int) =~= rc);
        out.push('\n');
        proof {
            let r1 = rs.subrange(0, i as int + 1);
            let c1 = cs.subrange(0, i as int + 1);
            assert(r1.drop_last() =~= rs.subrange(0, i as int));
            assert(c1.drop_last() =~= cs.subrange(0, i as int));
            assert(out@ =~= head + tsv_rows(r1, c1));
        }
        i = i + 1;
    }
    assert(rs.subrange(0, i as int) =~= rs);
    assert(cs.subrange(0, i as int) =~= cs);
    string_of(out.as_slice())
}

impl Consumer {
    /// The status columns, in the order the statuses were first seen.
    pub closed spec fn status_columns(&self) -> Seq<Seq<char>> {
        self.statuses.order()
    }

    /// The kind-of-URI columns, in the order the kinds were first seen.
    pub closed spec fn uritype_columns(&self) -> Seq<Seq<char>> {
        self.uritypes.order()
    }

    /// The slices, in increasing order.
    pub closed spec fn slice_rows(&self) -> Seq<int> {
        self.timeslices.order().map_values(|x: i64| x as int)
    }

    /// The columns and rows are the consumer's statuses, kinds and slices,
    /// each once, the slices in increasing order.
    pub proof fn lemma_columns(&self)
        requires
            self.wf(),
        ensures
            self.status_columns().no_duplicates(),
            self.status_columns().to_set() == self.model().statuses,
            self.uritype_columns().no_duplicates(),
            self.uritype_columns().to_set() == self.model().uritypes,
            self.slice_rows().to_set() == self.model().timeslices,
            forall|i: int, j: int| 0 <= i < j < self.slice_rows().len() ==> self.slice_rows()[i] < self.slice_rows()[j],
    {
        assert(self.slice_rows().to_set() =~= self.model().timeslices);
    }

    /// The report of counts by slice and status.
    pub open spec fn status_table(&self) -> Seq<char> {
        tsv_table(
            self.status_columns(),
            self.slice_rows(),
            count_cells(self.model().status_counts, self.status_columns(), self.slice_rows()),
        )
    }

    /// The report of counts by slice and kind of URI.
    pub open spec fn uritype_table(&self) -> Seq<char> {
        tsv_table(
            self.uritype_columns(),
            self.slice_rows(),
            count_cells(self.model().uritype_counts, self.uritype_columns(), self.slice_rows()),
        )
    }

    fn text_columns(items: &Vec<String>) -> (r: Vec<Vec<char>>)
        ensures
            views_of(r@) == items@.map_values(|s: String| s@),
    {
        let mut r: Vec<Vec<char>> = Vec::new();
        let mut i: usize = 0;
        while i < items.len()
            invariant
                i <= items@.len(),
                r@.len() == i,
                forall|k: int| 0 <= k < i ==> (#[trigger] r@[k])@ == items@[k]@,
            decreases items.len() - i,
        {
            r.push(chars_of(items[i].as_str()));
            i = i + 1;
        }
        assert(views_of(r@) =~= items@.map_values(|s: String| s@));
        r
    }

    fn count_matrix(counts: &TextCounts, cols: &Vec<String>, rows: &Vec<i64>) -> (r: Vec<Vec<u64>>)
        requires
            counts.wf(),
        ensures
            r@.len() == rows@.len(),
            cells_of(r@) == count_cells(
                counts.counts(),
                cols@.map_values(|s: String| s@),
                rows@.map_values(|x: i64| x as int),
            ),
    {
        let ghost target = count_cells(
            counts.counts(),
            cols@.map_values(|s: String| s@),
            rows@.map_values(|x: i64| x as int),
        );
        let mut r: Vec<Vec<u64>> = Vec::new();
        let mut i: usize = 0;
        while i < rows.len()
            invariant
                i <= rows@.len(),
                counts.wf(),
                target == count_cells(counts.counts(), cols@.map_values(|s: String| s@), rows@.map_values(|x: i64| x as int)),
                r@.len() == i,
                forall|k: int| 0 <= k < i ==> cells_of(r@)[k] == #[trigger] target[k],
            decreases rows.len() - i,
        {
            let mut row: Vec<u64> = Vec::new();
            let mut j: usize = 0;
            while j < cols.len()
                invariant
                    j <= cols@.len(),
                    i < rows@.len(),
                    counts.wf(),
                    target == count_cells(counts.counts(), cols@.map_values(|s: String| s@), rows@.map_values(|x: i64| x as int)),
                    row@.len() == j,
                    forall|k: int| 0 <= k < j ==> row@[k] as nat == #[trigger] target[i as int][k],
                decreases cols.len() - j,
            {
                let n = counts.get(rows[i], &cols[j]);
                row.push(n);
                j = j + 1;
            }
            assert(row@.map_values(|n: u64| n as nat) =~= target[i as int]);
            r.push(row);
            i = i + 1;
        }
        assert(cells_of(r@) =~= target);
        r
    }

    /// The report of counts by slice and status: a header of `timeslice`
    /// and each status, then a row for each slice in increasing order with
    /// the count of each status.
    pub fn dump_by_status_timeslice(&self) -> (r: String)
        requires
            self.wf(),
        ensures
            r@ == self.status_table(),
    {
        let cols = Consumer::text_columns(self.statuses.items());
        let rows = self.timeslices.items();
        let cells = Consumer::count_matrix(&self.by_status_timeslice, self.statuses.items(), rows);
        render_tsv(&cols, rows, &cells)
    }

    /// The report of counts by slice and kind of URI, laid out as the one
    /// by status.
    pub fn dump_by_uritype_timeslice(&self) -> (r: String)
        requires
            self.wf(),
        ensures
            r@ == self.uritype_table(),
    {
        let cols = Consumer::text_columns(self.uritypes.items());
        let rows = self.timeslices.items();
        let cells = Consumer::count_matrix(&self.by_uritype_timeslice, self.uritypes.items(), rows);
        render_tsv(&cols, rows, &cells)
    }
}

impl Consumer {
    /// The report of service times: a header of `timeslice` and each value
    /// that the histogram of all service times recorded (as its bucket's
    /// highest value), in increasing order; then a row for each slice in
    /// increasing order with the count of each value in the histogram of
    /// the row's slice of `LATENCY_SLICE_SECONDS`.
    pub fn dump_servicetimes_by_timeslice(&self) -> (r: String)
        requires
            self.wf(),
        ensures
            exists|vals: Seq<u64>| {
                &&& increasing(vals)
                &&& vals.to_set() == self.model().total_hist.dom()
                &&& r@ == tsv_table(
                    decimal_columns(vals),
                    self.slice_rows(),
                    latency_cells(self.model().slice_hists, vals, self.slice_rows()),
                )
            },
    {
        let pairs = bucket_counts(&self.servicetime_hist);
        let ghost vals = pairs@.map_values(|p: (u64, u64)| p.0);
        let mut cols: Vec<Vec<char>> = Vec::new();
        let mut values: Vec<u64> = Vec::new();
        let mut c: usize = 0;
        while c < pairs.len()
            invariant
                c <= pairs@.len(),
                vals == pairs@.map_values(|p: (u64, u64)| p.0),
                values@ =~= vals.subrange(0, c as int),
                cols@.len() == c,
                forall|k: int| 0 <= k < c ==> (#[trigger] cols@[k])@ == decimal_text(vals[k] as nat),
            decreases pairs.len() - c,
        {
            let mut t: Vec<char> = Vec::new();
            push_decimal(&mut t, pairs[c].0);
            assert(t@ =~= decimal_text(pairs@[c as int].0 as nat));
            cols.push(t);
            values.push(pairs[c].0);
            c = c + 1;
        }
        assert(vals.subrange(0, c as int) =~= vals);
        assert(views_of(cols@) =~= decimal_columns(vals));
        let rows = self.timeslices.items();
        let ghost rs = rows@.map_values(|x: i64| x as int);
        let ghost target = latency_cells(self.model().slice_hists, vals, rs);
        proof {
            self.lemma_columns();
        }
        let mut cells: Vec<Vec<u64>> = Vec::new();
        let mut i: usize = 0;
        while i < rows.len()
            invariant
                i <= rows@.len(),
                self.wf(),
                rs == rows@.map_values(|x: i64| x as int),
                rs == self.slice_rows(),
                rs.to_set() == self.model().timeslices,
                values@ == vals,
                target == latency_cells(self.model().slice_hists, vals, rs),
                cells@.len() == i,
                forall|k: int| 0 <= k < i ==> cells_of(cells@)[k] == #[trigger] target[k],
            decreases rows.len() - i,
        {
            assert(self.model().timeslices.contains(rs[i as int]));
            let ls = timeslice(rows[i], LATENCY_SLICE_SECONDS);
            let slice_pairs = self.servicetime_hist_by_timeslice.recorded_at(ls);
            let mut row: Vec<u64> = Vec::new();
            let mut j: usize = 0;
            while j < values.len()
                invariant
                    j <= values@.len(),
                    i < rs.len(),
                    values@ == vals,
                    ls as int == timeslice_of(rs[i as int], 1200),
                    increasing_keys(slice_pairs@),
                    pairs_map(slice_pairs@) == hist_get(self.model().slice_hists, ls as int),
                    target == latency_cells(self.model().slice_hists, vals, rs),
                    row@.len() == j,
                    forall|k: int| 0 <= k < j ==> row@[k] as nat == #[trigger] target[i as int][k],
                decreases values.len() - j,
            {
                let v = values[j];
                let mut n: u64 = 0;
                let mut k: usize = 0;
                while k < slice_pairs.len()
                    invariant
                        k <= slice_pairs@.len(),
                        forall|m: int| 0 <= m < k ==> (#[trigger] slice_pairs@[m]).0 != v,
                    ensures
                        k <= slice_pairs@.len(),
                        forall|m: int| 0 <= m < k ==> (#[trigger] slice_pairs@[m]).0 != v,
                        k < slice_pairs@.len() ==> slice_pairs@[k as int].0 == v,
                    decreases slice_pairs.len() - k,
                {
                    if slice_pairs[k].0 == v {
                        break;
                    }
                    k = k + 1;
                }
                if k < slice_pairs.len() {
                    n = slice_pairs[k].1;
                    proof {
                        lemma_pairs_has(slice_pairs@, k as int);
                    }
                } else {
                    proof {
                        lemma_pairs_lacks(slice_pairs@, v);
                    }
                }
                row.push(n);
                j = j + 1;
            }
            assert(row@.map_values(|n: u64| n as nat) =~= target[i as int]);
            cells.push(row);
            i = i + 1;
        }
        assert(cells_of(cells@) =~= target);
        proof {
            assert(increasing(vals));
            assert(vals.to_set() =~= self.model().total_hist.dom()) by {
                assert forall|v: u64| vals.to_set().contains(v) <==> self.model().total_hist.dom().contains(v) by {
                    if vals.to_set().contains(v) {
                        let k = choose|k: int| 0 <= k < vals.len() && vals[k] == v;
                        lemma_pairs_has(pairs@, k);
                    } else {
                        assert forall|m: int| 0 <= m < pairs@.len() implies (#[trigger] pairs@[m]).0 != v by {
                            if pairs@[m].0 == v {
                                assert(vals[m] == v);
                            }
                        }
                        lemma_pairs_lacks(pairs@, v);
                    }
                }
            }
        }
        render_tsv(&cols, rows, &cells)
    }
}

/// A consumer that has seen no records reports only a header row with
/// `timeslice` alone, in each of its reports.
pub proof fn law_empty_reports(c: Consumer, vals: Seq<u64>)
    requires
        c.wf(),
        c.model() == empty_model(),
        vals.to_set() == c.model().total_hist.dom(),
    ensures
        c.status_table() == timeslice_word() + seq!['\n'],
        c.uritype_table() == timeslice_word() + seq!['\n'],
        tsv_table(decimal_columns(vals), c.slice_rows(), latency_cells(c.model().slice_hists, vals, c.slice_rows()))
            == timeslice_word() + seq!['\n'],
{
    c.lemma_columns();
    assert(c.status_columns().len() == 0) by {
        if c.status_columns().len() > 0 {
            assert(c.status_columns().to_set().contains(c.status_columns()[0]));
        }
    }
    assert(c.uritype_columns().len() == 0) by {
        if c.uritype_columns().len() > 0 {
            assert(c.uritype_columns().to_set().contains(c.uritype_columns()[0]));
        }
    }
    assert(c.slice_rows().len() == 0) by {
        if c.slice_rows().len() > 0 {
            assert(c.slice_rows().to_set().contains(c.slice_rows()[0]));
        }
    }
    assert(vals.len() == 0) by {
        if vals.len() > 0 {
            assert(vals.to_set().contains(vals[0]));
        }
    }
    assert(decimal_columns(vals).len() == 0);
    assert(c.status_table() =~= timeslice_word() + seq!['\n']);
    assert(c.uritype_table() =~= timeslice_word() + seq!['\n']);
}

} // verus!
