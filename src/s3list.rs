//! The decisions of object-store listing: which page to ask for next, what
//! a page yields, and when a failed request is tried again. The caller
//! sends the requests and hands the pages back.

use vstd::prelude::*;
use crate::civil::CivilTime;
use crate::pathexpr::{
    bind_first, bounds_of, create_specialised, element_match, expr_matches, has_variable, ExprModel,
    MatchContext, PartModel, PathExpression,
};
use crate::text::{chars_of, string_of, string_of_range};

verus! {

/// The kinds of failure of a listing request.
#[derive(Debug, Clone, Copy, PartialEq, Eq, Structural)]
pub enum ListErrorKind {
    NoSuchKey,
    NoSuchBucket,
    HttpDispatch,
    Credentials,
    Validation,
    Unknown,
}

/// How many times a listing request is sent at most.
pub const LIST_ATTEMPTS: u32 = 3;

/// Whether a listing request that failed with `kind` on attempt `attempt`
/// (counting from one) is sent again: only a failure to dispatch it, and
/// only until `LIST_ATTEMPTS` attempts were made.
pub fn retry_listing(attempt: u32, kind: ListErrorKind) -> (r: bool)
    ensures
        r == (kind == ListErrorKind::HttpDispatch && attempt < LIST_ATTEMPTS),
{
    kind == ListErrorKind::HttpDispatch && attempt < LIST_ATTEMPTS
}

/// A request for one page of a listing.
#[derive(Debug)]
pub struct ListRequest {
    pub bucket: String,
    pub prefix: String,
    pub delimiter: Option<String>,
    pub marker: Option<String>,
}

/// One page of a listing, as the object store returns it.
#[derive(Debug)]
pub struct ListPage {
    /// The keys of the objects listed.
    pub contents: Option<Vec<Option<String>>>,
    /// The prefixes rolled up at the delimiter.
    pub common_prefixes: Option<Vec<Option<String>>>,
    pub is_truncated: Option<bool>,
    pub next_marker: Option<String>,
}

/// Why a listing ended early.
#[derive(Debug, PartialEq, Eq)]
pub enum ListFailure {
    /// The request failed.
    Request(ListErrorKind),
    /// The page lacked what the listing reads from it.
    EmptyPage,
}

/// A listing that ended early: the prefix it listed, and why.
#[derive(Debug, PartialEq, Eq)]
pub struct GlobError {
    pub path: String,
    pub error: ListFailure,
}

pub open spec fn opt_view(o: Option<String>) -> Option<Seq<char>> {
    match o {
        Some(s) => Some(s@),
        None => None,
    }
}

pub open spec fn keys_view(v: Seq<Option<String>>) -> Seq<Option<Seq<char>>> {
    v.map_values(|o: Option<String>| opt_view(o))
}

/// The keys among `keys` that the expression matches, in order.
pub open spec fn matching_keys(
    m: ExprModel,
    keys: Seq<Option<Seq<char>>>,
    from: Option<CivilTime>,
    to: Option<CivilTime>,
) -> Seq<Seq<char>>
    decreases keys.len(),
{
    if keys.len() == 0 {
        seq![]
    } else {
        let rest = matching_keys(m, keys.drop_first(), from, to);
        match keys[0] {
            Some(k) => if expr_matches(m, k, from, to) {
                seq![k] + rest
            } else {
                rest
            },
            None => rest,
        }
    }
}

/// Lists the objects whose keys match an expression: pages of the keys
/// under its common prefix, each page after the last key of the one before.
pub struct ListS3 {
    bucket: String,
    pathexp: PathExpression,
    prefix: String,
    marker: Option<String>,
    ended: bool,
}

impl ListS3 {
    pub closed spec fn expression(&self) -> PathExpression {
        self.pathexp
    }

    pub closed spec fn marker(&self) -> Option<Seq<char>> {
        opt_view(self.marker)
    }

    pub closed spec fn ended(&self) -> bool {
        self.ended
    }

    pub closed spec fn prefix(&self) -> Seq<char> {
        self.prefix@
    }

    pub closed spec fn bucket(&self) -> Seq<char> {
        self.bucket@
    }

    /// The listing of `bucket` for the keys that `pathexp` (already
    /// specialised to its time range) matches.
    pub fn new(bucket: &str, pathexp: PathExpression) -> (r: ListS3)
        ensures
            r.expression() == pathexp,
            r.bucket() == bucket@,
            r.prefix() == crate::pathexpr::expr_prefix(pathexp.model()),
            r.marker() is None,
            !r.ended(),
    {
        let prefix = pathexp.common_prefix();
        ListS3 { bucket: bucket.to_owned(), pathexp, prefix, marker: None, ended: false }
    }

    /// The request for the next page, or `None` once the listing ended.
    pub fn next_request(&self) -> (r: Option<ListRequest>)
        ensures
            self.ended() ==> r is None,
            !self.ended() ==> (r matches Some(q) && q.bucket@ == self.bucket() && q.prefix@ == self.prefix()
                && q.delimiter is None && opt_view(q.marker) == self.marker()),
    {
        if self.ended {
            return None;
        }
        let marker = match &self.marker {
            Some(m) => Some(m.clone()),
            None => None,
        };
        Some(ListRequest { bucket: self.bucket.clone(), prefix: self.prefix.clone(), delimiter: None, marker })
    }

    /// Takes the answer to the last request. A failure, or a page without
    /// contents, ends the listing. Otherwise the keys that the expression
    /// matches are returned; a truncated page sets the marker to its last
    /// key, and a page that is not truncated ends the listing.
    pub fn accept_page(&mut self, answer: Result<ListPage, ListErrorKind>) -> (r: Result<Vec<String>, GlobError>)
        requires
            old(self).expression().wf(),
            !old(self).ended(),
        ensures
            final(self).expression() == old(self).expression(),
            final(self).prefix() == old(self).prefix(),
            final(self).bucket() == old(self).bucket(),
            match answer {
                Err(k) => (r matches Err(g) && g.path@ == old(self).prefix() && g.error == ListFailure::Request(k))
                    && final(self).ended(),
                Ok(page) => match page.contents {
                    None => (r matches Err(g) && g.path@ == old(self).prefix() && g.error == ListFailure::EmptyPage)
                        && final(self).ended(),
                    Some(keys) => r matches Ok(found) && found@.map_values(|s: String| s@) == matching_keys(
                        old(self).expression().model(),
                        keys_view(keys@),
                        bounds_of(old(self).expression().options()).0,
                        bounds_of(old(self).expression().options()).1,
                    ) && (if page.is_truncated == Some(true) {
                        !final(self).ended() && final(self).marker() == (if keys@.len() > 0 {
                            opt_view(keys@.last())
                        } else {
                            None
                        })
                    } else {
                        final(self).ended() && final(self).marker() is None
                    }),
                },
            },
    {
        let page = match answer {
            Err(k) => {
                self.ended = true;
                return Err(GlobError { path: self.prefix.clone(), error: ListFailure::Request(k) });
            },
            Ok(p) => p,
        };
        let keys = match page.contents {
            None => {
                self.ended = true;
                return Err(GlobError { path: self.prefix.clone(), error: ListFailure::EmptyPage });
            },
            Some(keys) => keys,
        };
        let ghost m = self.pathexp.model();
        let ghost from = bounds_of(self.pathexp.options()).0;
        let ghost to = bounds_of(self.pathexp.options()).1;
        let ghost kv = keys_view(keys@);
        let mut found: Vec<String> = Vec::new();
        let mut i: usize = keys.len();
        assert(kv.subrange(i as int, kv.len() as int).len() == 0);
        while i > 0
            invariant
                i <= keys@.len(),
                kv == keys_view(keys@),
                self.pathexp.wf(),
                m == self.pathexp.model(),
                from == bounds_of(self.pathexp.options()).0,
                to == bounds_of(self.pathexp.options()).1,
                found@.map_values(|s: String| s@) == matching_keys(m, kv.subrange(i as int, kv.len() as int), from, to),
            decreases i,
        {
            let ghost tail = kv.subrange(i as int - 1, kv.len() as int);
            assert(tail.drop_first() =~= kv.subrange(i as int, kv.len() as int));
            assert(tail[0] == opt_view(keys@[i - 1]));
            let ghost before = found@.map_values(|s: String| s@);
            match &keys[i - 1] {
                Some(k) => {
                    if self.pathexp.is_match(k.as_str()) {
                        found.insert(0, k.clone());
                        assert(found@.map_values(|s: String| s@) =~= seq![k@] + before);
                    }
                },
                None => {},
            }
            i = i - 1;
        }
        assert(kv.subrange(0, kv.len() as int) =~= kv);
        let truncated = match page.is_truncated {
            Some(true) => true,
            _ => false,
        };
        if truncated {
            self.marker = if keys.len() > 0 {
                match &keys[keys.len() - 1] {
                    Some(k) => Some(k.clone()),
                    None => None,
                }
            } else {
                None
            };
        } else {
            self.marker = None;
            self.ended = true;
        }
        Ok(found)
    }
}

/// The text without the `/` it ends with.
pub open spec fn strip_trailing_slashes(p: Seq<char>) -> Seq<char>
    decreases p.len(),
{
    if p.len() > 0 && p.last() == '/' {
        strip_trailing_slashes(p.drop_last())
    } else {
        p
    }
}

/// The position of the last `/`, or -1.
pub open spec fn last_slash(p: Seq<char>) -> int
    decreases p.len(),
{
    if p.len() == 0 {
        -1
    } else if p.last() == '/' {
        p.len() - 1
    } else {
        last_slash(p.drop_last())
    }
}

/// The last segment of a key prefix: what follows its last `/` once the
/// `/` it ends with are dropped.
pub open spec fn last_segment(p: Seq<char>) -> Seq<char> {
    let q = strip_trailing_slashes(p);
    q.subrange(last_slash(q) + 1, q.len() as int)
}

/// The last segment of a key prefix.
pub fn last_segment_of(p: &str) -> (r: String)
    ensures
        r@ == last_segment(p@),
{
    let cs = chars_of(p);
    let mut e = cs.len();
    assert(cs@.subrange(0, e as int) =~= p@);
    while e > 0 && cs[e - 1] == '/'
        invariant
            e <= cs@.len(),
            cs@ == p@,
            strip_trailing_slashes(p@) == strip_trailing_slashes(cs@.subrange(0, e as int)),
        decreases e,
    {
        assert(cs@.subrange(0, e as int).drop_last() =~= cs@.subrange(0, e as int - 1));
        e = e - 1;
    }
    let ghost q = cs@.subrange(0, e as int);
    assert(strip_trailing_slashes(q) == q);
    let mut s = e;
    assert(q.subrange(0, s as int) =~= q);
    while s > 0 && cs[s - 1] != '/'
        invariant
            s <= e <= cs@.len(),
            q == cs@.subrange(0, e as int),
            last_slash(q) == last_slash(q.subrange(0, s as int)),
        decreases s,
    {
        assert(q.subrange(0, s as int).drop_last() =~= q.subrange(0, s as int - 1));
        s = s - 1;
    }
    assert(q.subrange(last_slash(q) + 1, q.len() as int) =~= cs@.subrange(s as int, e as int));
    string_of_range(&cs, s, e)
}

/// The values found for the placeholder, in order: the last segment of
/// each prefix that the element matches, each matched from the time `t`.
pub open spec fn found_values(
    ps: Seq<PartModel>,
    prefixes: Seq<Option<Seq<char>>>,
    t: CivilTime,
    from: Option<CivilTime>,
    to: Option<CivilTime>,
) -> Seq<Seq<char>>
    decreases prefixes.len(),
{
    if prefixes.len() == 0 {
        seq![]
    } else {
        let rest = found_values(ps, prefixes.drop_first(), t, from, to);
        match prefixes[0] {
            Some(p) => if element_match(ps, last_segment(p), t, from, to).0 {
                seq![last_segment(p)] + rest
            } else {
                rest
            },
            None => rest,
        }
    }
}

/// Lists the prefixes one level below an expression's common prefix; each
/// value found there that the first element with a variable part matches
/// gives the expression with its first unbound placeholder bound to it.
pub struct SpecialiseS3 {
    bucket: String,
    pathexp: PathExpression,
    prefix: String,
    marker: Option<String>,
    ended: bool,
    element: usize,
    ctx: MatchContext,
}

impl SpecialiseS3 {
    pub closed spec fn expression(&self) -> PathExpression {
        self.pathexp
    }

    /// The position of the first element with a variable part.
    pub closed spec fn element(&self) -> int {
        self.element as int
    }

    pub closed spec fn context(&self) -> MatchContext {
        self.ctx
    }

    pub closed spec fn marker(&self) -> Option<Seq<char>> {
        opt_view(self.marker)
    }

    pub closed spec fn ended(&self) -> bool {
        self.ended
    }

    pub closed spec fn prefix(&self) -> Seq<char> {
        self.prefix@
    }

    pub closed spec fn bucket(&self) -> Seq<char> {
        self.bucket@
    }

    pub closed spec fn wf(&self) -> bool {
        &&& self.pathexp.wf()
        &&& self.element < self.pathexp.model().elements.len()
    }

    /// The specialisation of `pathexp` (already specialised to its time
    /// range) over `bucket`; `None` where no element has a variable part.
    pub fn new(bucket: &str, pathexp: PathExpression, ctx: MatchContext) -> (r: Option<SpecialiseS3>)
        requires
            pathexp.wf(),
        ensures
            match r {
                None => forall|i: int| 0 <= i < pathexp.model().elements.len() ==> !has_variable(
                    #[trigger] pathexp.model().elements[i],
                ),
                Some(s) => {
                    &&& s.wf()
                    &&& s.expression() == pathexp
                    &&& s.context() == ctx
                    &&& s.bucket() == bucket@
                    &&& s.prefix() == crate::pathexpr::expr_prefix(pathexp.model())
                    &&& s.marker() is None
                    &&& !s.ended()
                    &&& has_variable(pathexp.model().elements[s.element()])
                    &&& forall|i: int| 0 <= i < s.element() ==> !has_variable(#[trigger] pathexp.model().elements[i])
                },
            },
    {
        let n = pathexp.element_count();
        let mut i: usize = 0;
        while i < n && !pathexp.element_has_variable(i)
            invariant
                i <= n,
                pathexp.wf(),
                n == pathexp.model().elements.len(),
                forall|k: int| 0 <= k < i ==> !has_variable(#[trigger] pathexp.model().elements[k]),
            decreases n - i,
        {
            i = i + 1;
        }
        if i == n {
            return None;
        }
        let prefix = pathexp.common_prefix();
        Some(SpecialiseS3 { bucket: bucket.to_owned(), pathexp, prefix, marker: None, ended: false, element: i, ctx })
    }

    /// The request for the next page, or `None` once the listing ended.
    pub fn next_request(&self) -> (r: Option<ListRequest>)
        ensures
            self.ended() ==> r is None,
            !self.ended() ==> (r matches Some(q) && q.bucket@ == self.bucket() && q.prefix@ == self.prefix()
                && opt_view(q.delimiter) == Some(seq!['/']) && opt_view(q.marker) == self.marker()),
    {
        if self.ended {
            return None;
        }
        let marker = match &self.marker {
            Some(m) => Some(m.clone()),
            None => None,
        };
        let slash = vec!['/'];
        let d = string_of(slash.as_slice());
        assert(d@ =~= seq!['/']);
        Some(ListRequest { bucket: self.bucket.clone(), prefix: self.prefix.clone(), delimiter: Some(d), marker })
    }

    /// Takes the answer to the last request. A failure, or a page without
    /// common prefixes, ends the listing. Otherwise each value found
    /// gives the expression with its first unbound placeholder bound to it;
    /// a truncated page sets the marker to the page's next marker, and a
    /// page that is not truncated ends the listing.
    pub fn accept_page(&mut self, answer: Result<ListPage, ListErrorKind>) -> (r: Result<Vec<PathExpression>, GlobError>)
        requires
            old(self).wf(),
            !old(self).ended(),
        ensures
            final(self).wf(),
            final(self).expression() == old(self).expression(),
            final(self).element() == old(self).element(),
            final(self).prefix() == old(self).prefix(),
            final(self).bucket() == old(self).bucket(),
            final(self).context() == old(self).context(),
            match answer {
                Err(k) => (r matches Err(g) && g.path@ == old(self).prefix() && g.error == ListFailure::Request(k))
                    && final(self).ended(),
                Ok(page) => match page.common_prefixes {
                    None => (r matches Err(g) && g.path@ == old(self).prefix() && g.error == ListFailure::EmptyPage)
                        && final(self).ended(),
                    Some(prefixes) => {
                        let e = old(self).expression().model();
                        let f = found_values(
                            e.elements[old(self).element()],
                            keys_view(prefixes@),
                            old(self).context().match_time,
                            old(self).context().from,
                            old(self).context().to,
                        );
                        &&& r matches Ok(exprs) && exprs@.len() == f.len() && forall|i: int|
                            0 <= i < exprs@.len() ==> (#[trigger] exprs@[i]).wf() && exprs@[i].options()
                                == old(self).expression().options() && exprs@[i].model() == (ExprModel {
                                lead: e.lead,
                                trail: e.trail,
                                elements: bind_first(e.elements, f[i]),
                            })
                        &&& if page.is_truncated == Some(true) {
                            !final(self).ended() && final(self).marker() == opt_view(page.next_marker)
                        } else {
                            final(self).ended() && final(self).marker() is None
                        }
                    },
                },
            },
    {
        let page = match answer {
            Err(k) => {
                self.ended = true;
                return Err(GlobError { path: self.prefix.clone(), error: ListFailure::Request(k) });
            },
            Ok(p) => p,
        };
        let prefixes = match page.common_prefixes {
            None => {
                self.ended = true;
                return Err(GlobError { path: self.prefix.clone(), error: ListFailure::EmptyPage });
            },
            Some(p) => p,
        };
        let ghost e = self.pathexp.model();
        let ghost pv = keys_view(prefixes@);
        let ghost ps = e.elements[self.element as int];
        let ghost t0 = self.ctx.match_time;
        let ghost from = self.ctx.from;
        let ghost to = self.ctx.to;
        let ghost mut vals: Seq<Seq<char>> = Seq::empty();
        let mut exprs: Vec<PathExpression> = Vec::new();
        let mut i: usize = 0;
        assert(pv.subrange(0, pv.len() as int) =~= pv);
        while i < prefixes.len()
            invariant
                i <= prefixes@.len(),
                pv == keys_view(prefixes@),
                self.wf(),
                self.pathexp == old(self).pathexp,
                self.element == old(self).element,
                self.prefix == old(self).prefix,
                self.bucket == old(self).bucket,
                self.ended == old(self).ended,
                e == self.pathexp.model(),
                ps == e.elements[self.element as int],
                self.ctx == old(self).ctx,
                self.ctx.match_time == t0,
                self.ctx.from == from,
                self.ctx.to == to,
                found_values(ps, pv, t0, from, to) == vals + found_values(
                    ps,
                    pv.subrange(i as int, pv.len() as int),
                    t0,
                    from,
                    to,
                ),
                exprs@.len() == vals.len(),
                forall|k: int|
                    0 <= k < exprs@.len() ==> (#[trigger] exprs@[k]).wf() && exprs@[k].options() == self.pathexp.options()
                        && exprs@[k].model() == (ExprModel {
                        lead: e.lead,
                        trail: e.trail,
                        elements: bind_first(e.elements, vals[k]),
                    }),
            decreases prefixes.len() - i,
        {
            let ghost sub = pv.subrange(i as int, pv.len() as int);
            assert(sub.drop_first() =~= pv.subrange(i as int + 1, pv.len() as int));
            assert(sub[0] == opt_view(prefixes@[i as int]));
            match &prefixes[i] {
                Some(p) => {
                    let seg = last_segment_of(p.as_str());
                    let mut ctx = self.ctx;
                    if self.pathexp.element_matches(self.element, &mut ctx, seg.as_str()) {
                        let x = create_specialised(&self.pathexp, seg.as_str());
                        proof {
                            let ghost rest = found_values(ps, pv.subrange(i as int + 1, pv.len() as int), t0, from, to);
                            assert(vals + (seq![seg@] + rest) =~= vals.push(seg@) + rest);
                            vals = vals.push(seg@);
                        }
                        exprs.push(x);
                    }
                },
                None => {},
            }
            i = i + 1;
        }
        assert(vals + Seq::<Seq<char>>::empty() =~= vals);
        assert(found_values(ps, pv, t0, from, to) == vals);
        let truncated = match page.is_truncated {
            Some(true) => true,
            _ => false,
        };
        if truncated {
            self.marker = match &page.next_marker {
                Some(m) => Some(m.clone()),
                None => None,
            };
        } else {
            self.marker = None;
            self.ended = true;
        }
        Ok(exprs)
    }
}

} // verus!
