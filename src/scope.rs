//! A depth-counted stack of scope frames.
use vstd::prelude::*;

verus! {

/// One step applied to a scope stack.
pub enum ScopeOp<T> {
    Enter(T),
    Dive,
    Surface,
}

/// The frames after a `dive`: the top counter goes up by one.
pub open spec fn dived<T>(s: Seq<(T, u64)>) -> Seq<(T, u64)> {
    if s.len() == 0 {
        s
    } else {
        s.update(s.len() - 1, (s.last().0, (s.last().1 + 1) as u64))
    }
}

/// The frames after a `surface`: the top counter goes down by one, and the
/// frame is popped when it reaches zero.
pub open spec fn surfaced<T>(s: Seq<(T, u64)>) -> Seq<(T, u64)> {
    if s.len() == 0 {
        s
    } else if s.last().1 <= 1 {
        s.drop_last()
    } else {
        s.update(s.len() - 1, (s.last().0, (s.last().1 - 1) as u64))
    }
}

/// The value of the frame a `surface` closes, if it closes one.
pub open spec fn closed_by_surface<T>(s: Seq<(T, u64)>) -> Option<T> {
    if s.len() > 0 && s.last().1 == 1 {
        Some(s.last().0)
    } else {
        None
    }
}

/// A step may be taken: a dive does not overflow the top counter and a
/// surface never meets a counter that is already zero.
pub open spec fn op_allowed<T>(s: Seq<(T, u64)>, op: ScopeOp<T>) -> bool {
    match op {
        ScopeOp::Enter(_) => true,
        ScopeOp::Dive => s.len() > 0 ==> s.last().1 < u64::MAX,
        ScopeOp::Surface => s.len() > 0 ==> s.last().1 > 0,
    }
}

pub open spec fn apply_op<T>(s: Seq<(T, u64)>, op: ScopeOp<T>) -> Seq<(T, u64)> {
    match op {
        ScopeOp::Enter(v) => s.push((v, 0u64)),
        ScopeOp::Dive => dived(s),
        ScopeOp::Surface => surfaced(s),
    }
}

/// The frames after running `ops` from `s`.
pub open spec fn run<T>(s: Seq<(T, u64)>, ops: Seq<ScopeOp<T>>) -> Seq<(T, u64)>
    decreases ops.len(),
{
    if ops.len() == 0 {
        s
    } else {
        apply_op(run(s, ops.drop_last()), ops.last())
    }
}

/// Every step of `ops`, run from `s`, is allowed.
pub open spec fn run_allowed<T>(s: Seq<(T, u64)>, ops: Seq<ScopeOp<T>>) -> bool
    decreases ops.len(),
{
    if ops.len() == 0 {
        true
    } else {
        run_allowed(s, ops.drop_last()) && op_allowed(run(s, ops.drop_last()), ops.last())
    }
}

/// How many steps of `ops` are dives on a non-empty stack.
pub open spec fn count_dives<T>(s: Seq<(T, u64)>, ops: Seq<ScopeOp<T>>) -> int
    decreases ops.len(),
{
    if ops.len() == 0 {
        0
    } else {
        count_dives(s, ops.drop_last()) + (if ops.last() is Dive && run(s, ops.drop_last()).len()
            > 0 {
            1int
        } else {
            0int
        })
    }
}

/// How many steps of `ops` are surfaces on a non-empty stack, each of which
/// takes one off a counter.
pub open spec fn count_decrements<T>(s: Seq<(T, u64)>, ops: Seq<ScopeOp<T>>) -> int
    decreases ops.len(),
{
    if ops.len() == 0 {
        0
    } else {
        count_decrements(s, ops.drop_last()) + (if ops.last() is Surface && run(
            s,
            ops.drop_last(),
        ).len() > 0 {
            1int
        } else {
            0int
        })
    }
}

/// The sum of the counters of all frames.
pub open spec fn total_depth<T>(s: Seq<(T, u64)>) -> int
    decreases s.len(),
{
    if s.len() == 0 {
        0
    } else {
        total_depth(s.drop_last()) + s.last().1
    }
}

proof fn lemma_step_total<T>(s: Seq<(T, u64)>, op: ScopeOp<T>)
    requires
        op_allowed(s, op),
    ensures
        total_depth(apply_op(s, op)) == total_depth(s) + (if op is Dive && s.len() > 0 {
            1int
        } else {
            0int
        }) - (if op is Surface && s.len() > 0 {
            1int
        } else {
            0int
        }),
{
    match op {
        ScopeOp::Enter(v) => {
            assert(s.push((v, 0u64)).drop_last() =~= s);
        },
        ScopeOp::Dive => {
            if s.len() > 0 {
                assert(dived(s).drop_last() =~= s.drop_last());
            }
        },
        ScopeOp::Surface => {
            if s.len() > 0 {
                if s.last().1 > 1 {
                    assert(surfaced(s).drop_last() =~= s.drop_last());
                }
            }
        },
    }
}

/// Balance: while every step is allowed, the counters of the open frames
/// always add up to what they started at, plus the dives taken on a
/// non-empty stack, minus the decrements made by surfaces.
pub proof fn lemma_depth_accounting<T>(s: Seq<(T, u64)>, ops: Seq<ScopeOp<T>>)
    requires
        run_allowed(s, ops),
    ensures
        total_depth(run(s, ops)) == total_depth(s) + count_dives(s, ops) - count_decrements(
            s,
            ops,
        ),
    decreases ops.len(),
{
    if ops.len() > 0 {
        lemma_depth_accounting(s, ops.drop_last());
        lemma_step_total(run(s, ops.drop_last()), ops.last());
    }
}

/// Balance: a well-formed walk, one that starts with no open frame, takes
/// only allowed steps and closes every frame it opened, makes exactly as many
/// dives on a non-empty stack as it makes counter decrements.
pub proof fn lemma_balanced_walk<T>(ops: Seq<ScopeOp<T>>)
    requires
        run_allowed(Seq::empty(), ops),
        run(Seq::<(T, u64)>::empty(), ops).len() == 0,
    ensures
        count_dives(Seq::empty(), ops) == count_decrements(Seq::empty(), ops),
{
    lemma_depth_accounting(Seq::<(T, u64)>::empty(), ops);
}

/// One element event of a walk: an element opens, carrying a value that
/// opens a frame of its own or none, or the innermost open element closes.
pub ghost enum Tag<T> {
    Open(Option<T>),
    Close,
}

/// The stack steps a tag makes: an element with a value enters it and then
/// dives, one without only dives, a close surfaces.
pub open spec fn tag_ops<T>(t: Tag<T>) -> Seq<ScopeOp<T>> {
    match t {
        Tag::Open(Some(u)) => seq![ScopeOp::Enter(u), ScopeOp::Dive],
        Tag::Open(None) => seq![ScopeOp::Dive],
        Tag::Close => seq![ScopeOp::Surface],
    }
}

pub open spec fn expand<T>(tags: Seq<Tag<T>>) -> Seq<ScopeOp<T>>
    decreases tags.len(),
{
    if tags.len() == 0 {
        Seq::empty()
    } else {
        expand(tags.drop_last()) + tag_ops(tags.last())
    }
}

/// The elements still open after `tags`, outermost first.
pub open spec fn open_path<T>(tags: Seq<Tag<T>>) -> Seq<Option<T>>
    decreases tags.len(),
{
    if tags.len() == 0 {
        Seq::empty()
    } else {
        let p = open_path(tags.drop_last());
        match tags.last() {
            Tag::Open(x) => p.push(x),
            Tag::Close => if p.len() > 0 {
                p.drop_last()
            } else {
                p
            },
        }
    }
}

/// Every close of `tags` closes an element that `tags` opened.
pub open spec fn properly_nested<T>(tags: Seq<Tag<T>>) -> bool
    decreases tags.len(),
{
    if tags.len() == 0 {
        true
    } else {
        properly_nested(tags.drop_last()) && (tags.last() is Close ==> open_path(
            tags.drop_last(),
        ).len() > 0)
    }
}

/// The frames while the elements of `path` are open inside a frame for `v`
/// entered on top of `s0`.
pub open spec fn path_frames<T>(s0: Seq<(T, u64)>, v: T, path: Seq<Option<T>>) -> Seq<(T, u64)>
    decreases path.len(),
{
    if path.len() == 0 {
        s0.push((v, 1u64))
    } else {
        let f = path_frames(s0, v, path.drop_last());
        match path.last() {
            Some(u) => f.push((u, 1u64)),
            None => dived(f),
        }
    }
}

proof fn lemma_run_concat<T>(s: Seq<(T, u64)>, a: Seq<ScopeOp<T>>, b: Seq<ScopeOp<T>>)
    ensures
        run(s, a + b) == run(run(s, a), b),
        run_allowed(s, a + b) == (run_allowed(s, a) && run_allowed(run(s, a), b)),
    decreases b.len(),
{
    if b.len() == 0 {
        assert(a + b =~= a);
    } else {
        assert((a + b).drop_last() =~= a + b.drop_last());
        lemma_run_concat(s, a, b.drop_last());
    }
}

proof fn lemma_path_frames<T>(s0: Seq<(T, u64)>, v: T, path: Seq<Option<T>>)
    requires
        path.len() + 2 < u64::MAX,
    ensures
        path_frames(s0, v, path).len() > s0.len(),
        path_frames(s0, v, path).last().1 >= 1,
        path_frames(s0, v, path).last().1 <= path.len() + 1,
    decreases path.len(),
{
    if path.len() > 0 {
        let f = path_frames(s0, v, path.drop_last());
        lemma_path_frames(s0, v, path.drop_last());
        match path.last() {
            Some(u) => {},
            None => {
                assert(dived(f).last() == (f.last().0, (f.last().1 + 1) as u64));
            },
        }
    }
}

proof fn lemma_nested_walk<T>(s0: Seq<(T, u64)>, v: T, tags: Seq<Tag<T>>)
    requires
        properly_nested(tags),
        tags.len() + 2 < u64::MAX,
    ensures
        run_allowed(s0.push((v, 1u64)), expand(tags)),
        run(s0.push((v, 1u64)), expand(tags)) == path_frames(s0, v, open_path(tags)),
        open_path(tags).len() <= tags.len(),
    decreases tags.len(),
{
    let s1 = s0.push((v, 1u64));
    if tags.len() > 0 {
        let init = tags.drop_last();
        lemma_nested_walk(s0, v, init);
        let p = open_path(init);
        let f = path_frames(s0, v, p);
        lemma_path_frames(s0, v, p);
        lemma_run_concat(s1, expand(init), tag_ops(tags.last()));
        let ops = tag_ops(tags.last());
        assert(expand(tags) == expand(init) + ops);
        match tags.last() {
            Tag::Open(Some(u)) => {
                assert(ops.drop_last() =~= seq![ScopeOp::Enter(u)]);
                assert(ops.drop_last().drop_last() =~= Seq::<ScopeOp<T>>::empty());
                assert(ops.last() == ScopeOp::<T>::Dive);
                assert(ops.drop_last().last() == ScopeOp::Enter(u));
                let x = ops.drop_last();
                assert(run(f, x.drop_last()) == f);
                assert(run(f, x) == apply_op(run(f, x.drop_last()), x.last()));
                assert(run(f, x) == f.push((u, 0u64)));
                assert(run(f, ops) == apply_op(run(f, x), ops.last()));
                assert(run_allowed(f, x.drop_last()));
                assert(run_allowed(f, x));
                assert(run_allowed(f, ops));
                assert(dived(f.push((u, 0u64))) =~= f.push((u, 1u64)));
                assert(p.push(Some(u)).drop_last() =~= p);
            },
            Tag::Open(None) => {
                assert(ops.drop_last() =~= Seq::<ScopeOp<T>>::empty());
                assert(ops.last() == ScopeOp::<T>::Dive);
                assert(run(f, ops.drop_last()) == f);
                assert(run(f, ops) == dived(f));
                assert(run_allowed(f, ops.drop_last()));
                assert(run_allowed(f, ops));
                assert(p.push(None).drop_last() =~= p);
            },
            Tag::Close => {
                assert(ops.drop_last() =~= Seq::<ScopeOp<T>>::empty());
                assert(ops.last() == ScopeOp::<T>::Surface);
                assert(run(f, ops.drop_last()) == f);
                assert(run(f, ops) == surfaced(f));
                assert(run_allowed(f, ops.drop_last()));
                assert(run_allowed(f, ops));
                let q = p.drop_last();
                assert(q.push(p.last()) =~= p);
                let g = path_frames(s0, v, q);
                lemma_path_frames(s0, v, q);
                match p.last() {
                    Some(u) => {
                        assert(f =~= g.push((u, 1u64)));
                        assert(surfaced(f) =~= g);
                    },
                    None => {
                        assert(f == dived(g));
                        assert(dived(g).last() == (g.last().0, (g.last().1 + 1) as u64));
                        assert(surfaced(f) =~= g);
                    },
                }
            },
        }
    }
}

/// Balance, frame by frame: after `enter(v)` and `dive()`, a properly nested
/// walk of elements, each open an optional `enter` and a `dive`, each close
/// a `surface`, takes only allowed steps and never takes the stack below the
/// frame of `v`; the `surface` that matches the first `dive` then returns
/// `v` and leaves the stack as it was before `enter(v)`.
pub proof fn lemma_matching_surface<T>(s0: Seq<(T, u64)>, v: T, tags: Seq<Tag<T>>)
    requires
        properly_nested(tags),
        open_path(tags).len() == 0,
        tags.len() + 2 < u64::MAX,
    ensures
        run(s0, seq![ScopeOp::Enter(v), ScopeOp::Dive]) == s0.push((v, 1u64)),
        run_allowed(s0.push((v, 1u64)), expand(tags)),
        forall|i: int|
            0 <= i <= tags.len() ==> #[trigger] run(
                s0.push((v, 1u64)),
                expand(tags.subrange(0, i)),
            ).len() > s0.len(),
        run(s0.push((v, 1u64)), expand(tags)) == s0.push((v, 1u64)),
        closed_by_surface(s0.push((v, 1u64))) == Some(v),
        surfaced(s0.push((v, 1u64))) == s0,
{
    let e = seq![ScopeOp::Enter(v), ScopeOp::Dive];
    assert(e.drop_last() =~= seq![ScopeOp::Enter(v)]);
    assert(e.drop_last().drop_last() =~= Seq::<ScopeOp<T>>::empty());
    assert(e.last() == ScopeOp::<T>::Dive);
    assert(e.drop_last().last() == ScopeOp::Enter(v));
    let x = e.drop_last();
    assert(run(s0, x.drop_last()) == s0);
    assert(run(s0, x) == apply_op(run(s0, x.drop_last()), x.last()));
    assert(run(s0, x) == s0.push((v, 0u64)));
    assert(dived(s0.push((v, 0u64))) =~= s0.push((v, 1u64)));
    lemma_nested_walk(s0, v, tags);
    assert forall|i: int| 0 <= i <= tags.len() implies #[trigger] run(
        s0.push((v, 1u64)),
        expand(tags.subrange(0, i)),
    ).len() > s0.len() by {
        lemma_nested_prefix(tags, i);
        lemma_nested_walk(s0, v, tags.subrange(0, i));
        lemma_path_frames(s0, v, open_path(tags.subrange(0, i)));
        assert(tags.subrange(0, i).len() == i);
    }
    assert(s0.push((v, 1u64)).drop_last() =~= s0);
}

proof fn lemma_nested_prefix<T>(tags: Seq<Tag<T>>, i: int)
    requires
        properly_nested(tags),
        0 <= i <= tags.len(),
    ensures
        properly_nested(tags.subrange(0, i)),
    decreases tags.len() - i,
{
    if i == tags.len() {
        assert(tags.subrange(0, i) =~= tags);
    } else {
        lemma_nested_prefix(tags, i + 1);
        assert(tags.subrange(0, i + 1).drop_last() =~= tags.subrange(0, i));
    }
}

/// A stack of scope frames, each a value and a depth counter.
pub struct StackPosition<T> {
    frames: Vec<(T, u64)>,
}

impl<T> View for StackPosition<T> {
    type V = Seq<(T, u64)>;

    closed spec fn view(&self) -> Seq<(T, u64)> {
        self.frames@
    }
}

impl<T> StackPosition<T> {
    pub fn new() -> (r: StackPosition<T>)
        ensures
            r@ == Seq::<(T, u64)>::empty(),
    {
        StackPosition { frames: Vec::new() }
    }

    /// Opens a new frame holding `value`, with its counter at zero.
    pub fn enter(&mut self, value: T)
        ensures
            final(self)@ == old(self)@.push((value, 0u64)),
            final(self)@ == apply_op(old(self)@, ScopeOp::Enter(value)),
    {
        self.frames.push((value, 0));
    }

    /// Counts one more element entered under the top frame; does nothing on
    /// an empty stack.
    pub fn dive(&mut self)
        requires
            op_allowed(old(self)@, ScopeOp::Dive),
        ensures
            final(self)@ == dived(old(self)@),
            final(self)@ == apply_op(old(self)@, ScopeOp::Dive),
    {
        if let Some(frame) = self.frames.pop() {
            let (value, depth) = frame;
            self.frames.push((value, depth + 1));
            proof {
                assert(self.frames@ =~= dived(old(self)@));
            }
        }
    }

    /// Replaces the value of the top frame, keeping its counter; does nothing
    /// on an empty stack.
    pub fn replace_top(&mut self, value: T)
        ensures
            final(self)@ == if old(self)@.len() == 0 {
                old(self)@
            } else {
                old(self)@.update(old(self)@.len() - 1, (value, old(self)@.last().1))
            },
    {
        if let Some(frame) = self.frames.pop() {
            let (_, depth) = frame;
            self.frames.push((value, depth));
            proof {
                assert(self.frames@ =~= old(self)@.update(
                    old(self)@.len() - 1,
                    (value, old(self)@.last().1),
                ));
            }
        }
    }

    /// The counter of the top frame.
    pub fn depth(&self) -> (r: Option<u64>)
        ensures
            r == (if self@.len() == 0 {
                None
            } else {
                Some(self@.last().1)
            }),
    {
        let n = self.frames.len();
        if n == 0 {
            None
        } else {
            Some(self.frames[n - 1].1)
        }
    }

    /// The value of the top frame.
    pub fn current(&self) -> (r: Option<&T>)
        ensures
            match r {
                None => self@.len() == 0,
                Some(v) => self@.len() > 0 && *v == self@.last().0,
            },
    {
        let n = self.frames.len();
        if n == 0 {
            None
        } else {
            Some(&self.frames[n - 1].0)
        }
    }

    /// Whether a `dive` is allowed now.
    pub fn has_room(&self) -> (r: bool)
        ensures
            r == op_allowed(self@, ScopeOp::Dive),
    {
        let n = self.frames.len();
        n == 0 || self.frames[n - 1].1 < u64::MAX
    }

    /// Counts one element left under the top frame; when its counter reaches
    /// zero the frame is popped and its value returned. On an empty stack it
    /// does nothing and returns `None`.
    pub fn surface(&mut self) -> (r: Option<T>)
        requires
            op_allowed(old(self)@, ScopeOp::Surface),
        ensures
            final(self)@ == surfaced(old(self)@),
            final(self)@ == apply_op(old(self)@, ScopeOp::Surface),
            r == closed_by_surface(old(self)@),
    {
        match self.frames.pop() {
            None => None,
            Some(frame) => {
                let (value, depth) = frame;
                if depth == 1 {
                    Some(value)
                } else {
                    self.frames.push((value, depth - 1));
                    proof {
                        assert(self.frames@ =~= surfaced(old(self)@));
                    }
                    None
                }
            },
        }
    }
}

} // verus!
