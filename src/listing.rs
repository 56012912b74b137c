//! The filesystem walk that lists the paths matching an expression. The
//! walk is a state machine: it asks for a directory to be listed or a path
//! to be probed, and is told what was found; the caller does the I/O.

use vstd::prelude::*;
use crate::pathexpr::{
    element_match, element_prefix, has_placeholder, initial_time, MatchContext, PathExpression, PathMatchOptions,
    PartModel,
};
use crate::civil::CivilTime;
use crate::text::{chars_of, push_chars, string_of};

verus! {

/// `name` inside the directory `dir`.
pub open spec fn join_path(dir: Seq<char>, name: Seq<char>) -> Seq<char> {
    if dir.len() > 0 && dir.last() == '/' {
        dir + name
    } else {
        dir + seq!['/'] + name
    }
}

/// `name` inside the directory `dir`.
pub fn join(dir: &Vec<char>, name: &Vec<char>) -> (r: Vec<char>)
    ensures
        r@ == join_path(dir@, name@),
{
    let mut out: Vec<char> = Vec::new();
    push_chars(&mut out, dir);
    if !(dir.len() > 0 && dir[dir.len() - 1] == '/') {
        out.push('/');
    }
    push_chars(&mut out, name);
    out
}

/// What the walk waits for. Each candidate carries the time that the
/// time fields of its own path spell out.
pub enum Pending {
    /// Nothing: it can go on by itself.
    Nothing,
    /// The names in this directory, whose entries are candidates for the
    /// element at this position.
    Dir(Vec<char>, usize, CivilTime),
    /// Whether this path, a candidate for the element at this position,
    /// exists and is a directory.
    Probe(Vec<char>, usize, CivilTime),
}

/// What the walk waits for, over character sequences.
pub enum PendingModel {
    Nothing,
    Dir(Seq<char>, int, CivilTime),
    Probe(Seq<char>, int, CivilTime),
}

/// What the walk asks for next.
#[derive(Debug)]
pub enum WalkAction {
    /// List this directory and hand the names to `dir_listed`.
    ListDir(String),
    /// Probe this path and hand the result to `probed`.
    Probe(String),
    /// The walk is over.
    Finished,
}

/// A candidate path, the element it is a candidate for, and the time its
/// path spells out.
pub type Candidate = (Seq<char>, int, CivilTime);

/// The candidates of element `i` inside `dir` among `names`, in order: each
/// name is matched from `t`, the time of `dir`, and keeps the time its own
/// match leaves.
pub open spec fn filter_names(
    ps: Seq<PartModel>,
    dir: Seq<char>,
    names: Seq<Seq<char>>,
    i: int,
    t: CivilTime,
    from: Option<CivilTime>,
    to: Option<CivilTime>,
) -> Seq<Candidate>
    decreases names.len(),
{
    if names.len() == 0 {
        seq![]
    } else {
        let m = element_match(ps, names[0], t, from, to);
        let rest = filter_names(ps, dir, names.drop_first(), i, t, from, to);
        if m.0 {
            seq![(join_path(dir, names[0]), i, m.1)] + rest
        } else {
            rest
        }
    }
}

/// Walks the filesystem for the paths that match an expression.
pub struct ListLocal {
    pathexp: PathExpression,
    todo: Vec<(Vec<char>, usize, CivilTime)>,
    pending: Pending,
    from: Option<CivilTime>,
    to: Option<CivilTime>,
}

pub open spec fn todo_view(v: Seq<(Vec<char>, usize, CivilTime)>) -> Seq<Candidate> {
    v.map_values(|e: (Vec<char>, usize, CivilTime)| (e.0@, e.1 as int, e.2))
}

impl ListLocal {
    /// The elements of the (specialised) expression walked.
    pub closed spec fn elements(&self) -> Seq<Seq<PartModel>> {
        self.pathexp.model().elements
    }

    /// The candidates still to be probed; the last is probed first.
    pub closed spec fn todo(&self) -> Seq<Candidate> {
        todo_view(self.todo@)
    }

    pub closed spec fn pending(&self) -> PendingModel {
        match self.pending {
            Pending::Nothing => PendingModel::Nothing,
            Pending::Dir(p, i, t) => PendingModel::Dir(p@, i as int, t),
            Pending::Probe(p, i, t) => PendingModel::Probe(p@, i as int, t),
        }
    }

    /// The bounds of the time range.
    pub closed spec fn bounds(&self) -> (Option<CivilTime>, Option<CivilTime>) {
        (self.from, self.to)
    }

    pub closed spec fn wf(&self) -> bool {
        &&& self.pathexp.wf()
        &&& forall|k: int| 0 <= k < self.todo@.len() ==> (#[trigger] self.todo@[k]).1 < self.elements().len()
        &&& match self.pending {
            Pending::Nothing => true,
            Pending::Dir(_, i, _) => i < self.elements().len(),
            Pending::Probe(_, i, _) => i < self.elements().len(),
        }
    }

    /// Where the walk goes from a directory whose path spells out the time
    /// `t` and is a candidate for the element before `i`: list it where
    /// element `i` has placeholders, else a single candidate, the element's
    /// text inside it.
    pub open spec fn expansion(
        els: Seq<Seq<PartModel>>,
        dir: Seq<char>,
        i: int,
        t: CivilTime,
    ) -> (Seq<Candidate>, PendingModel) {
        if has_placeholder(els[i]) {
            (seq![], PendingModel::Dir(dir, i, t))
        } else {
            (seq![(join_path(dir, element_prefix(els[i]).0), i, t)], PendingModel::Nothing)
        }
    }

    fn expand(&mut self, dir: Vec<char>, i: usize, t: CivilTime)
        requires
            old(self).wf(),
            i < old(self).elements().len(),
            old(self).pending() == PendingModel::Nothing,
        ensures
            final(self).wf(),
            final(self).elements() == old(self).elements(),
            final(self).bounds() == old(self).bounds(),
            final(self).todo() == old(self).todo() + ListLocal::expansion(old(self).elements(), dir@, i as int, t).0,
            final(self).pending() == ListLocal::expansion(old(self).elements(), dir@, i as int, t).1,
    {
        if self.pathexp.element_has_placeholders(i) {
            self.pending = Pending::Dir(dir, i, t);
        } else {
            let text = self.pathexp.element_prefix_text(i);
            let next = join(&dir, &text);
            let ghost before = self.todo();
            self.todo.push((next, i, t));
            assert(self.todo() =~= before + ListLocal::expansion(old(self).elements(), dir@, i as int, t).0);
        }
    }

    /// The walk of the paths under `scope` that match `pathexp` within the
    /// time range of `opts`. Matching starts from the lower bound's time.
    pub fn new(pathexp: &PathExpression, opts: PathMatchOptions, scope: String) -> (r: ListLocal)
        requires
            pathexp.wf(),
        ensures
            r.wf(),
            r.elements() == pathexp.with_elements(opts),
            r.bounds() == (opts.from, opts.to),
            r.elements().len() == 0 ==> r.todo().len() == 0 && r.pending() == PendingModel::Nothing,
            r.elements().len() > 0 ==> r.todo() == ListLocal::expansion(r.elements(), scope@, 0, initial_time(opts.from)).0
                && r.pending() == ListLocal::expansion(r.elements(), scope@, 0, initial_time(opts.from)).1,
    {
        let specialised = pathexp.with(opts);
        let start = MatchContext::new(&opts).match_time;
        let mut walk = ListLocal {
            pathexp: specialised,
            todo: Vec::new(),
            pending: Pending::Nothing,
            from: opts.from,
            to: opts.to,
        };
        assert(walk.todo() =~= Seq::<Candidate>::empty());
        if walk.pathexp.element_count() > 0 {
            let dir = chars_of(scope.as_str());
            walk.expand(dir, 0, start);
            assert(walk.todo() =~= ListLocal::expansion(walk.elements(), scope@, 0, initial_time(opts.from)).0);
        }
        walk
    }

    /// What the walk asks for: the listing or probe it waits for, else a
    /// probe of the last candidate, else the end.
    pub fn next(&mut self) -> (r: WalkAction)
        requires
            old(self).wf(),
        ensures
            final(self).wf(),
            final(self).elements() == old(self).elements(),
            final(self).bounds() == old(self).bounds(),
            match old(self).pending() {
                PendingModel::Dir(p, i, t) => r matches WalkAction::ListDir(s) && s@ == p && final(self).todo()
                    == old(self).todo() && final(self).pending() == old(self).pending(),
                PendingModel::Probe(p, i, t) => r matches WalkAction::Probe(s) && s@ == p && final(self).todo()
                    == old(self).todo() && final(self).pending() == old(self).pending(),
                PendingModel::Nothing => if old(self).todo().len() == 0 {
                    r matches WalkAction::Finished && final(self).todo() == old(self).todo()
                        && final(self).pending() == PendingModel::Nothing
                } else {
                    let last = old(self).todo().last();
                    r matches WalkAction::Probe(s) && s@ == last.0 && final(self).todo() == old(self).todo().drop_last()
                        && final(self).pending() == PendingModel::Probe(last.0, last.1, last.2)
                },
            },
    {
        match &self.pending {
            Pending::Dir(p, _, _) => {
                return WalkAction::ListDir(string_of(p.as_slice()));
            },
            Pending::Probe(p, _, _) => {
                return WalkAction::Probe(string_of(p.as_slice()));
            },
            Pending::Nothing => {},
        }
        let ghost before = self.todo();
        match self.todo.pop() {
            None => WalkAction::Finished,
            Some((path, i, t)) => {
                assert(self.todo() =~= before.drop_last());
                let s = string_of(path.as_slice());
                self.pending = Pending::Probe(path, i, t);
                WalkAction::Probe(s)
            },
        }
    }

    /// Takes the names in the directory that the walk asked to list (none
    /// where it could not be read): those that match the element, each
    /// from the directory's own time, become candidates, in order.
    pub fn dir_listed(&mut self, names: Vec<String>)
        requires
            old(self).wf(),
            old(self).pending() is Dir,
        ensures
            final(self).wf(),
            final(self).elements() == old(self).elements(),
            final(self).bounds() == old(self).bounds(),
            final(self).pending() == PendingModel::Nothing,
            ({
                let (dir, i, t) = match old(self).pending() {
                    PendingModel::Dir(d, i, t) => (d, i, t),
                    _ => (seq![], 0, CivilTime::spec_zero()),
                };
                final(self).todo() == old(self).todo() + filter_names(
                    old(self).elements()[i],
                    dir,
                    names@.map_values(|s: String| s@),
                    i,
                    t,
                    old(self).bounds().0,
                    old(self).bounds().1,
                )
            }),
    {
        let (dir, i, t) = match &self.pending {
            Pending::Dir(d, i, t) => (d.clone(), *i, *t),
            _ => (Vec::new(), 0, CivilTime::zero()),
        };
        let ghost ns = names@.map_values(|s: String| s@);
        let ghost els = self.elements();
        let ghost todo0 = self.todo();
        let ghost from = self.from;
        let ghost to = self.to;
        self.pending = Pending::Nothing;
        let mut k: usize = 0;
        assert(ns.subrange(0, ns.len() as int) =~= ns);
        while k < names.len()
            invariant
                k <= names@.len(),
                ns == names@.map_values(|s: String| s@),
                self.wf(),
                i < els.len(),
                self.elements() == els,
                self.pending() == PendingModel::Nothing,
                self.from == from,
                self.to == to,
                todo0 + filter_names(els[i as int], dir@, ns, i as int, t, from, to) == self.todo() + filter_names(
                    els[i as int],
                    dir@,
                    ns.subrange(k as int, ns.len() as int),
                    i as int,
                    t,
                    from,
                    to,
                ),
            decreases names.len() - k,
        {
            let ghost sub = ns.subrange(k as int, ns.len() as int);
            assert(sub.drop_first() =~= ns.subrange(k as int + 1, ns.len() as int));
            assert(sub[0] == names@[k as int]@);
            let ghost before = self.todo();
            let mut ctx = MatchContext { match_time: t, from: self.from, to: self.to };
            if self.pathexp.element_matches(i, &mut ctx, names[k].as_str()) {
                let name = chars_of(names[k].as_str());
                let path = join(&dir, &name);
                self.todo.push((path, i, ctx.match_time));
                assert(self.todo() =~= before.push((join_path(dir@, sub[0]), i as int, ctx.match_time)));
                let ghost rest = filter_names(els[i as int], dir@, ns.subrange(k as int + 1, ns.len() as int), i as int, t, from, to);
                assert(before + (seq![(join_path(dir@, sub[0]), i as int, ctx.match_time)] + rest) =~= self.todo() + rest);
            }
            k = k + 1;
        }
        assert(self.todo() + Seq::<Candidate>::empty() =~= self.todo());
    }

    /// Takes what the probe that the walk asked for found. A path that does
    /// not exist is dropped; one for the last element is a match, returned;
    /// a directory for another element is expanded to the next element,
    /// with the candidate's own time.
    pub fn probed(&mut self, exists: bool, is_dir: bool) -> (r: Option<String>)
        requires
            old(self).wf(),
            old(self).pending() is Probe,
        ensures
            final(self).wf(),
            final(self).elements() == old(self).elements(),
            final(self).bounds() == old(self).bounds(),
            ({
                let (path, i, t) = match old(self).pending() {
                    PendingModel::Probe(p, i, t) => (p, i, t),
                    _ => (seq![], 0, CivilTime::spec_zero()),
                };
                if !exists {
                    r is None && final(self).todo() == old(self).todo() && final(self).pending() == PendingModel::Nothing
                } else if i == old(self).elements().len() - 1 {
                    r matches Some(s) && s@ == path && final(self).todo() == old(self).todo()
                        && final(self).pending() == PendingModel::Nothing
                } else if is_dir {
                    r is None && final(self).todo() == old(self).todo() + ListLocal::expansion(
                        old(self).elements(),
                        path,
                        i + 1,
                        t,
                    ).0 && final(self).pending() == ListLocal::expansion(old(self).elements(), path, i + 1, t).1
                } else {
                    r is None && final(self).todo() == old(self).todo() && final(self).pending() == PendingModel::Nothing
                }
            }),
    {
        let (path, i, t) = match &self.pending {
            Pending::Probe(p, i, t) => (p.clone(), *i, *t),
            _ => (Vec::new(), 0, CivilTime::zero()),
        };
        self.pending = Pending::Nothing;
        if !exists {
            return None;
        }
        if i == self.pathexp.element_count() - 1 {
            return Some(string_of(path.as_slice()));
        }
        if is_dir {
            self.expand(path, i + 1, t);
        }
        None
    }
}

} // verus!
