//! The serialised action queue of a keyboard.
//!
//! Every mutation of a keyboard travels as a [`KeyboardAction`]. A queue
//! holds at most one pending action per variant: a newer action replaces the
//! queued one of its kind, except that two colour updates are merged into a
//! single update covering both ranges, with the newer colours winning where
//! they overlap.

use vstd::prelude::*;

verus! {

/// A pending mutation. Colour entries of `None` leave the LED unchanged.
pub enum KeyboardAction {
    UpdateColors(Vec<Option<(u8, u8, u8)>>, usize, bool),
    UpdateEffect(u8),
    UpdateSpeed(u8),
    UpdateBrightness(u8),
    UpdateColor((u8, u8, u8)),
    LoadState(Vec<u8>, bool),
    PersistState,
    ResetBrightness,
}

/// The mathematical content of a [`KeyboardAction`].
pub ghost enum ActionV {
    UpdateColors(Seq<Option<(u8, u8, u8)>>, int, bool),
    UpdateEffect(u8),
    UpdateSpeed(u8),
    UpdateBrightness(u8),
    UpdateColor((u8, u8, u8)),
    LoadState(Seq<u8>, bool),
    PersistState,
    ResetBrightness,
}

impl View for KeyboardAction {
    type V = ActionV;

    open spec fn view(&self) -> ActionV {
        match self {
            KeyboardAction::UpdateColors(c, off, wb) => ActionV::UpdateColors(
                c@,
                *off as int,
                *wb,
            ),
            KeyboardAction::UpdateEffect(e) => ActionV::UpdateEffect(*e),
            KeyboardAction::UpdateSpeed(sp) => ActionV::UpdateSpeed(*sp),
            KeyboardAction::UpdateBrightness(b) => ActionV::UpdateBrightness(*b),
            KeyboardAction::UpdateColor(c) => ActionV::UpdateColor(*c),
            KeyboardAction::LoadState(d, wb) => ActionV::LoadState(d@, *wb),
            KeyboardAction::PersistState => ActionV::PersistState,
            KeyboardAction::ResetBrightness => ActionV::ResetBrightness,
        }
    }
}

impl KeyboardAction {
    /// The coalescing key: one queue slot per variant.
    pub open spec fn tag(&self) -> int {
        match self {
            KeyboardAction::UpdateColors(..) => 0,
            KeyboardAction::UpdateEffect(..) => 1,
            KeyboardAction::UpdateSpeed(..) => 2,
            KeyboardAction::UpdateBrightness(..) => 3,
            KeyboardAction::UpdateColor(..) => 4,
            KeyboardAction::LoadState(..) => 5,
            KeyboardAction::PersistState => 6,
            KeyboardAction::ResetBrightness => 7,
        }
    }

    pub fn tag_value(&self) -> (t: u8)
        ensures
            t as int == self.tag(),
    {
        match self {
            KeyboardAction::UpdateColors(..) => 0,
            KeyboardAction::UpdateEffect(..) => 1,
            KeyboardAction::UpdateSpeed(..) => 2,
            KeyboardAction::UpdateBrightness(..) => 3,
            KeyboardAction::UpdateColor(..) => 4,
            KeyboardAction::LoadState(..) => 5,
            KeyboardAction::PersistState => 6,
            KeyboardAction::ResetBrightness => 7,
        }
    }

    /// The action's name, for logging.
    pub fn as_name(&self) -> &'static str {
        match self {
            KeyboardAction::UpdateColors(..) => "UpdateColors",
            KeyboardAction::UpdateEffect(..) => "UpdateEffect",
            KeyboardAction::UpdateSpeed(..) => "UpdateSpeed",
            KeyboardAction::UpdateBrightness(..) => "UpdateBrightness",
            KeyboardAction::UpdateColor(..) => "UpdateColor",
            KeyboardAction::LoadState(..) => "LoadState",
            KeyboardAction::PersistState => "PersistState",
            KeyboardAction::ResetBrightness => "ResetBrightness",
        }
    }
}

/// Whether two colour updates can be merged into one list: each window's
/// end must fit the machine.
pub open spec fn spec_merge_compatible(
    old_len: int,
    old_off: int,
    new_len: int,
    new_off: int,
) -> bool {
    &&& old_off + old_len <= usize::MAX
    &&& new_off + new_len <= usize::MAX
}

/// The merged colour list: the union of both windows, newer entries winning
/// where the windows overlap, sentinels in the gap between them.
pub open spec fn spec_merge_colors(
    old_c: Seq<Option<(u8, u8, u8)>>,
    old_off: int,
    new_c: Seq<Option<(u8, u8, u8)>>,
    new_off: int,
) -> Seq<Option<(u8, u8, u8)>> {
    spec_merge_colors_t(old_c, old_off, new_c, new_off)
}

/// Merges two colour updates; the merged offset is the smaller one.
pub fn merge_colors(
    colors_old: Vec<Option<(u8, u8, u8)>>,
    offset_old: usize,
    colors_new: Vec<Option<(u8, u8, u8)>>,
    offset_new: usize,
) -> (r: (Vec<Option<(u8, u8, u8)>>, usize))
    requires
        spec_merge_compatible(
            colors_old@.len() as int,
            offset_old as int,
            colors_new@.len() as int,
            offset_new as int,
        ),
    ensures
        r.0@ =~= spec_merge_colors(
            colors_old@,
            offset_old as int,
            colors_new@,
            offset_new as int,
        ),
        r.1 == (if offset_old <= offset_new {
            offset_old
        } else {
            offset_new
        }),
{
    let lo: usize = if offset_old <= offset_new {
        offset_old
    } else {
        offset_new
    };
    let old_end = offset_old + colors_old.len();
    let new_end = offset_new + colors_new.len();
    let hi: usize = if old_end >= new_end {
        old_end
    } else {
        new_end
    };
    let mut out: Vec<Option<(u8, u8, u8)>> = Vec::new();
    let mut i: usize = 0;
    while i < hi - lo
        invariant
            i <= hi - lo,
            lo == (if offset_old <= offset_new {
                offset_old as int
            } else {
                offset_new as int
            }),
            old_end == offset_old + colors_old@.len(),
            new_end == offset_new + colors_new@.len(),
            hi == (if old_end >= new_end {
                old_end as int
            } else {
                new_end as int
            }),
            lo <= hi,
            out@.len() == i,
            forall|j: int|
                0 <= j < i ==> out@[j] == spec_merge_colors(
                    colors_old@,
                    offset_old as int,
                    colors_new@,
                    offset_new as int,
                )[j],
        decreases hi - lo - i,
    {
        let pos = lo + i;
        let e: Option<(u8, u8, u8)> = if pos >= offset_new && pos - offset_new < colors_new.len() {
            colors_new[pos - offset_new]
        } else if pos >= offset_old && pos - offset_old < colors_old.len() {
            colors_old[pos - offset_old]
        } else {
            None
        };
        proof {
            assert(e == spec_merge_colors(
                colors_old@,
                offset_old as int,
                colors_new@,
                offset_new as int,
            )[i as int]);
        }
        out.push(e);
        i = i + 1;
    }
    (out, lo)
}

/// A plane of values with a window of optional writes applied: explicit
/// entries replace the plane's values, sentinels leave them.
pub open spec fn write_window<T>(plane: Seq<T>, colors: Seq<Option<T>>, off: int) -> Seq<T> {
    Seq::new(
        plane.len(),
        |j: int|
            if off <= j < off + colors.len() && colors[j - off] is Some {
                colors[j - off]->0
            } else {
                plane[j]
            },
    )
}

/// Coalescing is faithful: writing the merged colour list at the merged
/// offset changes a plane exactly as writing the older list and then the
/// newer one would, provided the newer list writes an explicit colour
/// wherever the two windows overlap.
pub proof fn lemma_merge_effect<T>(
    plane: Seq<T>,
    old_c: Seq<Option<T>>,
    old_off: int,
    new_c: Seq<Option<T>>,
    new_off: int,
)
    requires
        0 <= old_off,
        0 <= new_off,
        forall|j: int|
            old_off <= j < old_off + old_c.len() && new_off <= j < new_off + new_c.len()
                ==> (#[trigger] new_c[j - new_off]) is Some,
    ensures
        ({
            let lo = if old_off <= new_off {
                old_off
            } else {
                new_off
            };
            write_window(plane, spec_merge_colors_t(old_c, old_off, new_c, new_off), lo)
                =~= write_window(write_window(plane, old_c, old_off), new_c, new_off)
        }),
{
    let lo = if old_off <= new_off {
        old_off
    } else {
        new_off
    };
    let m = spec_merge_colors_t(old_c, old_off, new_c, new_off);
    let lhs = write_window(plane, m, lo);
    let rhs = write_window(write_window(plane, old_c, old_off), new_c, new_off);
    assert forall|j: int| 0 <= j < plane.len() implies lhs[j] == rhs[j] by {
        if new_off <= j < new_off + new_c.len() {
            assert(m[j - lo] == new_c[j - new_off]);
        } else if old_off <= j < old_off + old_c.len() {
            assert(m[j - lo] == old_c[j - old_off]);
        }
    }
}

/// The merged colour list over any element type.
pub open spec fn spec_merge_colors_t<T>(
    old_c: Seq<Option<T>>,
    old_off: int,
    new_c: Seq<Option<T>>,
    new_off: int,
) -> Seq<Option<T>> {
    let lo = if old_off <= new_off {
        old_off
    } else {
        new_off
    };
    let hi = if old_off + old_c.len() >= new_off + new_c.len() {
        old_off + old_c.len()
    } else {
        new_off + new_c.len()
    };
    Seq::new(
        (hi - lo) as nat,
        |i: int|
            if new_off - lo <= i < new_off - lo + new_c.len() {
                new_c[i - (new_off - lo)]
            } else if old_off - lo <= i < old_off - lo + old_c.len() {
                old_c[i - (old_off - lo)]
            } else {
                None
            },
    )
}

/// What a newer action leaves in the slot an older one occupies: colour
/// updates merge, everything else is replaced outright.
pub open spec fn spec_coalesce(e: ActionV, a: ActionV) -> ActionV {
    match (e, a) {
        (ActionV::UpdateColors(oc, oo, _), ActionV::UpdateColors(nc, no, wb)) => {
            ActionV::UpdateColors(
                spec_merge_colors(oc, oo, nc, no),
                if oo <= no {
                    oo
                } else {
                    no
                },
                wb,
            )
        },
        (_, a2) => a2,
    }
}

/// The spec-level tag of an action view.
pub open spec fn view_tag(a: ActionV) -> int {
    match a {
        ActionV::UpdateColors(..) => 0,
        ActionV::UpdateEffect(..) => 1,
        ActionV::UpdateSpeed(..) => 2,
        ActionV::UpdateBrightness(..) => 3,
        ActionV::UpdateColor(..) => 4,
        ActionV::LoadState(..) => 5,
        ActionV::PersistState => 6,
        ActionV::ResetBrightness => 7,
    }
}

/// The view of an action keeps its coalescing key.
pub proof fn lemma_tag_view(a: KeyboardAction)
    ensures
        view_tag(a@) == a.tag(),
{
    match a {
        KeyboardAction::UpdateColors(..) => {},
        KeyboardAction::UpdateEffect(..) => {},
        KeyboardAction::UpdateSpeed(..) => {},
        KeyboardAction::UpdateBrightness(..) => {},
        KeyboardAction::UpdateColor(..) => {},
        KeyboardAction::LoadState(..) => {},
        KeyboardAction::PersistState => {},
        KeyboardAction::ResetBrightness => {},
    }
}

/// The insertion-ordered queue of pending actions, at most one per variant.
pub struct ActionQueue {
    items: Vec<KeyboardAction>,
}

impl ActionQueue {
    /// The queued action views, oldest first.
    pub closed spec fn view_queue(&self) -> Seq<ActionV> {
        self.items@.map_values(|a: KeyboardAction| a@)
    }

    /// Each variant holds at most one slot.
    pub closed spec fn wf(&self) -> bool {
        forall|i: int, j: int|
            0 <= i < j < self.items@.len() ==> (#[trigger] self.items@[i]).tag() != (
            #[trigger] self.items@[j]).tag()
    }

    pub fn new() -> (q: ActionQueue)
        ensures
            q.wf(),
            q.view_queue() == Seq::<ActionV>::empty(),
    {
        let q = ActionQueue { items: Vec::new() };
        proof {
            assert(q.view_queue() =~= Seq::<ActionV>::empty());
        }
        q
    }

    pub fn len(&self) -> (n: usize)
        ensures
            n == self.view_queue().len(),
    {
        self.items.len()
    }

    /// Whether `action` can join the queue: a colour update must be
    /// mergeable with the colour update already queued, if any.
    pub closed spec fn spec_accepts(&self, action: ActionV) -> bool {
        match action {
            ActionV::UpdateColors(nc, no, _) => {
                forall|i: int|
                    0 <= i < self.items@.len() ==> match #[trigger] self.items@[i]@ {
                        ActionV::UpdateColors(oc, oo, _) => spec_merge_compatible(
                            oc.len() as int,
                            oo,
                            nc.len() as int,
                            no,
                        ),
                        _ => true,
                    }
            },
            _ => true,
        }
    }

    /// Tests [`ActionQueue::spec_accepts`].
    pub fn accepts(&self, action: &KeyboardAction) -> (r: bool)
        ensures
            r == self.spec_accepts(action@),
    {
        let (nc_len, no): (usize, usize) = match action {
            KeyboardAction::UpdateColors(nc, no, _) => (nc.len(), *no),
            _ => {
                return true;
            },
        };
        let mut i: usize = 0;
        while i < self.items.len()
            invariant
                i <= self.items@.len(),
                action@ matches ActionV::UpdateColors(nc, no2, wb) && nc.len() == nc_len && no2
                    == no,
                forall|k: int|
                    0 <= k < i ==> match #[trigger] self.items@[k]@ {
                        ActionV::UpdateColors(oc, oo, _) => spec_merge_compatible(
                            oc.len() as int,
                            oo,
                            nc_len as int,
                            no as int,
                        ),
                        _ => true,
                    },
            decreases self.items@.len() - i,
        {
            match &self.items[i] {
                KeyboardAction::UpdateColors(oc, oo, _) => {
                    let old_len = oc.len();
                    let old_off = *oo;
                    let compatible: bool = old_len <= usize::MAX - old_off && nc_len
                        <= usize::MAX - no;
                    if !compatible {
                        proof {
                            assert(!spec_merge_compatible(
                                oc@.len() as int,
                                old_off as int,
                                nc_len as int,
                                no as int,
                            ));
                            assert(self.items@[i as int]@ matches ActionV::UpdateColors(
                                oc2,
                                oo2,
                                _,
                            ) && oc2 == oc@ && oo2 == old_off as int);
                            assert(!self.spec_accepts(action@));
                        }
                        return false;
                    }
                },
                _ => {},
            }
            i = i + 1;
        }
        true
    }

    /// Queues an action: it replaces (or, for colour updates, merges with)
    /// the queued action of its variant, and moves to the back of the queue.
    pub fn perform_action(&mut self, action: KeyboardAction)
        requires
            old(self).wf(),
            old(self).spec_accepts(action@),
        ensures
            final(self).wf(),
            ({
                let q0 = old(self).view_queue();
                let a = action@;
                if exists|k: int| 0 <= k < q0.len() && view_tag(#[trigger] q0[k]) == view_tag(a) {
                    let k = choose|k: int|
                        0 <= k < q0.len() && view_tag(#[trigger] q0[k]) == view_tag(a);
                    final(self).view_queue() =~= q0.remove(k).push(spec_coalesce(q0[k], a))
                } else {
                    final(self).view_queue() =~= q0.push(a)
                }
            }),
    {
        let ghost q0 = self.view_queue();
        let tag = action.tag_value();
        let mut k: usize = 0;
        let mut found = false;
        while k < self.items.len() && !found
            invariant
                k <= self.items@.len(),
                self == old(self),
                !found ==> forall|x: int|
                    0 <= x < k ==> (#[trigger] self.items@[x]).tag() != action.tag(),
                found ==> k < self.items@.len() && self.items@[k as int].tag() == action.tag(),
                tag as int == action.tag(),
            decreases self.items@.len() - k + (if found {
                0int
            } else {
                1int
            }),
        {
            if self.items[k].tag_value() == tag {
                found = true;
            } else {
                k = k + 1;
            }
        }
        if !found {
            proof {
                lemma_tag_view(action);
                assert forall|x: int|
                    0 <= x < q0.len() implies view_tag(#[trigger] q0[x]) != view_tag(action@) by {
                    lemma_tag_view(old(self).items@[x]);
                }
            }
            self.items.push(action);
            proof {
                assert(final(self).view_queue() =~= q0.push(action@));
                assert forall|i: int, j: int|
                    0 <= i < j < self.items@.len() implies (#[trigger] self.items@[i]).tag() != (
                #[trigger] self.items@[j]).tag() by {
                    if j == self.items@.len() - 1 {
                        lemma_tag_view(old(self).items@[i]);
                        lemma_tag_view(action);
                        assert(self.items@[i] == old(self).items@[i]);
                        assert(view_tag(q0[i]) != view_tag(action@));
                    } else {
                        assert(self.items@[i] == old(self).items@[i]);
                        assert(self.items@[j] == old(self).items@[j]);
                    }
                }
            }
            return ;
        }
        let existing = self.items.remove(k);
        let ghost qr = self.view_queue();
        let replacement: KeyboardAction = match (existing, action) {
            (
                KeyboardAction::UpdateColors(oc, oo, _),
                KeyboardAction::UpdateColors(nc, no, wb),
            ) => {
                let (mc, mo) = merge_colors(oc, oo, nc, no);
                KeyboardAction::UpdateColors(mc, mo, wb)
            },
            (_, a2) => a2,
        };
        self.items.push(replacement);
        proof {
            lemma_tag_view(old(self).items@[k as int]);
            lemma_tag_view(action);
            assert(view_tag(q0[k as int]) == view_tag(action@));
            assert(exists|x: int|
                0 <= x < q0.len() && view_tag(#[trigger] q0[x]) == view_tag(action@));
            let kk = choose|x: int|
                0 <= x < q0.len() && view_tag(#[trigger] q0[x]) == view_tag(action@);
            lemma_tag_view(old(self).items@[k as int]);
            lemma_tag_view(action);
            assert(view_tag(q0[k as int]) == view_tag(action@));
            assert(kk == k as int) by {
                if kk != k as int {
                    lemma_tag_view(old(self).items@[kk]);
                    lemma_tag_view(old(self).items@[k as int]);
                    assert(old(self).items@[kk].tag() == old(self).items@[k as int].tag());
                }
            }
            assert(qr =~= q0.remove(k as int));
            assert(replacement@ == spec_coalesce(q0[k as int], action@));
            assert(final(self).view_queue() =~= qr.push(replacement@));
            lemma_tag_view(replacement);
            lemma_tag_view(action);
            lemma_tag_view(old(self).items@[k as int]);
            assert(replacement.tag() == old(self).items@[k as int].tag());
            assert forall|i: int, j: int|
                0 <= i < j < self.items@.len() implies (#[trigger] self.items@[i]).tag() != (
            #[trigger] self.items@[j]).tag() by {
                let n = self.items@.len();
                if j < n - 1 {
                    let oi = if i < k as int { i } else { i + 1 };
                    let oj = if j < k as int { j } else { j + 1 };
                    assert(self.items@[i] == old(self).items@[oi]);
                    assert(self.items@[j] == old(self).items@[oj]);
                } else {
                    let oi = if i < k as int { i } else { i + 1 };
                    assert(self.items@[i] == old(self).items@[oi]);
                    assert(self.items@[j] == replacement);
                    assert(old(self).items@[oi].tag() != old(self).items@[k as int].tag());
                }
            }
        }
    }

    /// Removes and returns the oldest pending action.
    pub fn pop_front(&mut self) -> (r: Option<KeyboardAction>)
        requires
            old(self).wf(),
        ensures
            final(self).wf(),
            old(self).view_queue().len() == 0 ==> (r is None && final(self).view_queue() == old(
                self,
            ).view_queue()),
            old(self).view_queue().len() > 0 ==> (r matches Some(a) && a@ == old(
                self,
            ).view_queue()[0] && final(self).view_queue() =~= old(self).view_queue().skip(1)),
    {
        if self.items.len() == 0 {
            return None;
        }
        let a = self.items.remove(0);
        proof {
            assert(final(self).view_queue() =~= old(self).view_queue().skip(1));
        }
        Some(a)
    }
}

} // verus!
