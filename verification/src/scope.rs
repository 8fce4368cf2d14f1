//! Lexical scope frames, held in an index-based arena.
//!
//! A frame maps identifiers to already-resolved values and names an
//! optional parent frame; lookup walks the parent chain and returns the
//! nearest enclosing binding, so an inner binding shadows an outer one.
//! Frames are created for the compilation root and for each mixin-body
//! invocation; a frame's parent is the frame that was active at the
//! invocation site.  Mixin templates live in a namespace of their own,
//! separate from variables.

use vstd::prelude::*;
use crate::value::{ExpressionValue, ValueM};

verus! {

/// Mathematical model of a recorded mixin template.
#[verifier::ext_equal]
pub struct MixinM {
    /// Formal parameter names, in declaration order.
    pub params: Seq<Seq<char>>,
    /// Expression ids of the body statements, in order.
    pub body: Seq<int>,
}

/// Mathematical model of one scope frame.
#[verifier::ext_equal]
pub struct FrameM {
    pub vars: Map<Seq<char>, ValueM>,
    pub mixins: Map<Seq<char>, MixinM>,
    pub parent: Option<int>,
}

/// A mixin template as recorded by its definition.
pub struct MixinEntry {
    pub name: String,
    pub params: Vec<String>,
    pub body: Vec<usize>,
}

/// One scope frame: local bindings plus an optional parent frame.
pub struct ScopeData {
    vars: Vec<(String, ExpressionValue)>,
    mixins: Vec<MixinEntry>,
    parent: Option<usize>,
}

/// All scope frames of one compilation, addressed by integer handle.
pub struct ScopeArena {
    frames: Vec<ScopeData>,
}

impl View for MixinEntry {
    type V = MixinM;

    open spec fn view(&self) -> MixinM {
        MixinM {
            params: self.params@.map_values(|p: String| p@),
            body: self.body@.map_values(|b: usize| b as int),
        }
    }
}

/// The variable map that an association list denotes; a later entry for
/// the same identifier overwrites an earlier one.
pub open spec fn vars_map(s: Seq<(String, ExpressionValue)>) -> Map<Seq<char>, ValueM>
    decreases s.len(),
{
    if s.len() == 0 {
        Map::empty()
    } else {
        vars_map(s.drop_last()).insert(s.last().0@, s.last().1@)
    }
}

/// The mixin map that an association list denotes.
pub open spec fn mixins_map(s: Seq<MixinEntry>) -> Map<Seq<char>, MixinM>
    decreases s.len(),
{
    if s.len() == 0 {
        Map::empty()
    } else {
        mixins_map(s.drop_last()).insert(s.last().name@, s.last()@)
    }
}

impl View for ScopeData {
    type V = FrameM;

    closed spec fn view(&self) -> FrameM {
        FrameM {
            vars: vars_map(self.vars@),
            mixins: mixins_map(self.mixins@),
            parent: match self.parent {
                Some(p) => Some(p as int),
                None => None,
            },
        }
    }
}

impl View for ScopeArena {
    type V = Seq<FrameM>;

    closed spec fn view(&self) -> Seq<FrameM> {
        self.frames@.map_values(|f: ScopeData| f@)
    }
}

/// Every frame's parent handle points at an earlier frame, so parent
/// chains are acyclic and lookup terminates.
pub open spec fn frames_wf(frames: Seq<FrameM>) -> bool {
    forall|i: int| 0 <= i < frames.len()
        ==> (#[trigger] frames[i].parent matches Some(p) ==> 0 <= p < i)
}

/// The nearest enclosing binding of `name`, walking from frame `i`
/// through the parent chain: standard lexical shadowing.
pub open spec fn spec_lookup(frames: Seq<FrameM>, i: int, name: Seq<char>) -> Option<ValueM>
    decreases i,
{
    if 0 <= i < frames.len() {
        if frames[i].vars.contains_key(name) {
            Some(frames[i].vars[name])
        } else {
            match frames[i].parent {
                Some(p) => if 0 <= p < i {
                    spec_lookup(frames, p, name)
                } else {
                    None
                },
                None => None,
            }
        }
    } else {
        None
    }
}

/// The nearest enclosing mixin template named `name`.
pub open spec fn spec_lookup_mixin(frames: Seq<FrameM>, i: int, name: Seq<char>) -> Option<MixinM>
    decreases i,
{
    if 0 <= i < frames.len() {
        if frames[i].mixins.contains_key(name) {
            Some(frames[i].mixins[name])
        } else {
            match frames[i].parent {
                Some(p) => if 0 <= p < i {
                    spec_lookup_mixin(frames, p, name)
                } else {
                    None
                },
                None => None,
            }
        }
    } else {
        None
    }
}

/// The binding that a scan of the association list from its end finds.
pub open spec fn find_var(s: Seq<(String, ExpressionValue)>, name: Seq<char>) -> Option<ValueM>
    decreases s.len(),
{
    if s.len() == 0 {
        None
    } else if s.last().0@ == name {
        Some(s.last().1@)
    } else {
        find_var(s.drop_last(), name)
    }
}

/// The template that a scan of the mixin list from its end finds.
pub open spec fn find_mixin(s: Seq<MixinEntry>, name: Seq<char>) -> Option<MixinM>
    decreases s.len(),
{
    if s.len() == 0 {
        None
    } else if s.last().name@ == name {
        Some(s.last()@)
    } else {
        find_mixin(s.drop_last(), name)
    }
}

/// A scan from the end of the list finds exactly the map's entry.
proof fn lemma_find_var_is_map(s: Seq<(String, ExpressionValue)>, name: Seq<char>)
    ensures
        find_var(s, name) == (if vars_map(s).contains_key(name) {
            Some(vars_map(s)[name])
        } else {
            Option::<ValueM>::None
        }),
    decreases s.len(),
{
    if s.len() > 0 {
        lemma_find_var_is_map(s.drop_last(), name);
    }
}

/// A scan from the end of the mixin list finds exactly the map's entry.
proof fn lemma_find_mixin_is_map(s: Seq<MixinEntry>, name: Seq<char>)
    ensures
        find_mixin(s, name) == (if mixins_map(s).contains_key(name) {
            Some(mixins_map(s)[name])
        } else {
            Option::<MixinM>::None
        }),
    decreases s.len(),
{
    if s.len() > 0 {
        lemma_find_mixin_is_map(s.drop_last(), name);
    }
}

impl ScopeArena {
    /// An arena with no frames yet.
    pub fn new() -> (r: ScopeArena)
        ensures
            r@ == Seq::<FrameM>::empty(),
            r.wf(),
    {
        let r = ScopeArena { frames: Vec::new() };
        proof {
            assert(r@ =~= Seq::<FrameM>::empty());
        }
        r
    }

    pub open spec fn wf(&self) -> bool {
        frames_wf(self@) && self@.len() <= usize::MAX
    }

    /// Number of frames allocated so far.
    pub fn len(&self) -> (r: usize)
        ensures
            r == self@.len(),
    {
        self.frames.len()
    }

    /// Append a fresh root frame with no parent and no bindings.
    pub fn new_root(&mut self) -> (r: usize)
        requires
            old(self).wf(),
        ensures
            r == old(self)@.len(),
            final(self)@ =~= old(self)@.push(
                (FrameM { vars: Map::empty(), mixins: Map::empty(), parent: None }),
            ),
            final(self).wf(),
    {
        let r = self.frames.len();
        self.frames.push(ScopeData { vars: Vec::new(), mixins: Vec::new(), parent: None });
        proof {
            assert(vstd::std_specs::vec::spec_vec_len(&self.frames) == self.frames@.len());
            assert(final(self)@ =~= old(self)@.push(
                (FrameM { vars: Map::empty(), mixins: Map::empty(), parent: None }),
            ));
        }
        r
    }

    /// Append a fresh child frame of `parent` with no bindings.
    pub fn new_child(&mut self, parent: usize) -> (r: usize)
        requires
            old(self).wf(),
            parent < old(self)@.len(),
        ensures
            r == old(self)@.len(),
            final(self)@ =~= old(self)@.push(
                (FrameM {
                    vars: Map::empty(),
                    mixins: Map::empty(),
                    parent: Some(parent as int),
                }),
            ),
            final(self).wf(),
    {
        let r = self.frames.len();
        self.frames.push(ScopeData { vars: Vec::new(), mixins: Vec::new(), parent: Some(parent) });
        proof {
            assert(vstd::std_specs::vec::spec_vec_len(&self.frames) == self.frames@.len());
            assert(final(self)@ =~= old(self)@.push(
                (FrameM {
                    vars: Map::empty(),
                    mixins: Map::empty(),
                    parent: Some(parent as int),
                }),
            ));
        }
        r
    }

    /// Insert or overwrite a binding in the local frame only; an outer
    /// binding of the same name is shadowed, never changed.
    pub fn define(&mut self, scope: usize, name: String, value: ExpressionValue)
        requires
            old(self).wf(),
            scope < old(self)@.len(),
        ensures
            final(self)@ =~= old(self)@.update(scope as int,
                (FrameM {
                    vars: old(self)@[scope as int].vars.insert(name@, value@),
                    ..old(self)@[scope as int]
                }),
            ),
            final(self).wf(),
    {
        let ghost prev = self.frames@[scope as int].vars@;
        let frame = &mut self.frames[scope];
        frame.vars.push((name, value));
        proof {
            assert(frame.vars@.drop_last() =~= prev);
            assert(final(self)@ =~= old(self)@.update(scope as int,
                (FrameM {
                    vars: old(self)@[scope as int].vars.insert(name@, value@),
                    ..old(self)@[scope as int]
                }),
            ));
        }
    }

    /// Record a mixin template in the local frame only.
    pub fn define_mixin(&mut self, scope: usize, entry: MixinEntry)
        requires
            old(self).wf(),
            scope < old(self)@.len(),
        ensures
            final(self)@ =~= old(self)@.update(scope as int,
                (FrameM {
                    mixins: old(self)@[scope as int].mixins.insert(entry.name@, entry@),
                    ..old(self)@[scope as int]
                }),
            ),
            final(self).wf(),
    {
        let ghost prev = self.frames@[scope as int].mixins@;
        let frame = &mut self.frames[scope];
        frame.mixins.push(entry);
        proof {
            assert(frame.mixins@.drop_last() =~= prev);
            assert(final(self)@ =~= old(self)@.update(scope as int,
                (FrameM {
                    mixins: old(self)@[scope as int].mixins.insert(entry.name@, entry@),
                    ..old(self)@[scope as int]
                }),
            ));
        }
    }

    /// The nearest enclosing binding of `name`, from frame `scope` out.
    pub fn var(&self, scope: usize, name: &String) -> (r: Option<ExpressionValue>)
        requires
            self.wf(),
            scope < self@.len(),
        ensures
            match r {
                Some(v) => spec_lookup(self@, scope as int, name@) == Some(v@),
                None => spec_lookup(self@, scope as int, name@) is None,
            },
    {
        let mut cur: usize = scope;
        loop
            invariant
                self.wf(),
                cur < self@.len(),
                spec_lookup(self@, scope as int, name@) == spec_lookup(self@, cur as int, name@),
            decreases cur,
        {
            let frame = &self.frames[cur];
            proof {
                assert(self@[cur as int] == self.frames@[cur as int]@);
            }
            let mut j: usize = frame.vars.len();
            proof {
                assert(frame.vars@.subrange(0, j as int) =~= frame.vars@);
            }
            while j > 0
                invariant
                    self.wf(),
                    cur < self@.len(),
                    spec_lookup(self@, scope as int, name@)
                        == spec_lookup(self@, cur as int, name@),
                    *frame == self.frames@[cur as int],
                    self@[cur as int] == self.frames@[cur as int]@,
                    j <= frame.vars@.len(),
                    find_var(frame.vars@, name@) == find_var(frame.vars@.subrange(0, j as int), name@),
                decreases j,
            {
                j = j - 1;
                if frame.vars[j].0 == *name {
                    proof {
                        assert(frame.vars@.subrange(0, j + 1 as int).last() == frame.vars@[j as int]);
                        assert(find_var(frame.vars@, name@) == Some(frame.vars@[j as int].1@));
                        lemma_find_var_is_map(frame.vars@, name@);
                        assert(self@[cur as int].vars == vars_map(frame.vars@));
                        assert(spec_lookup(self@, cur as int, name@)
                            == Some(frame.vars@[j as int].1@));
                    }
                    return Some(frame.vars[j].1.duplicate());
                }
                proof {
                    assert(frame.vars@.subrange(0, j + 1 as int).drop_last()
                        =~= frame.vars@.subrange(0, j as int));
                }
            }
            proof {
                lemma_find_var_is_map(frame.vars@, name@);
                assert(frame.vars@.subrange(0, 0) =~= Seq::<(String, ExpressionValue)>::empty());
                assert(!self@[cur as int].vars.contains_key(name@));
            }
            match frame.parent {
                Some(p) => {
                    proof {
                        assert(self@[cur as int].parent == Some(p as int));
                        assert(spec_lookup(self@, cur as int, name@)
                            == spec_lookup(self@, p as int, name@));
                    }
                    cur = p;
                },
                None => {
                    proof {
                        assert(spec_lookup(self@, cur as int, name@) is None);
                    }
                    return None;
                },
            }
        }
    }

    /// The nearest enclosing mixin template named `name`.
    pub fn mixin(&self, scope: usize, name: &String) -> (r: Option<&MixinEntry>)
        requires
            self.wf(),
            scope < self@.len(),
        ensures
            match r {
                Some(m) => spec_lookup_mixin(self@, scope as int, name@) == Some(m@),
                None => spec_lookup_mixin(self@, scope as int, name@) is None,
            },
    {
        let mut cur: usize = scope;
        loop
            invariant
                self.wf(),
                cur < self@.len(),
                spec_lookup_mixin(self@, scope as int, name@)
                    == spec_lookup_mixin(self@, cur as int, name@),
            decreases cur,
        {
            let frame = &self.frames[cur];
            proof {
                assert(self@[cur as int] == self.frames@[cur as int]@);
            }
            let mut j: usize = frame.mixins.len();
            proof {
                assert(frame.mixins@.subrange(0, j as int) =~= frame.mixins@);
            }
            while j > 0
                invariant
                    self.wf(),
                    cur < self@.len(),
                    spec_lookup_mixin(self@, scope as int, name@)
                        == spec_lookup_mixin(self@, cur as int, name@),
                    *frame == self.frames@[cur as int],
                    self@[cur as int] == self.frames@[cur as int]@,
                    j <= frame.mixins@.len(),
                    find_mixin(frame.mixins@, name@)
                        == find_mixin(frame.mixins@.subrange(0, j as int), name@),
                decreases j,
            {
                j = j - 1;
                if frame.mixins[j].name == *name {
                    proof {
                        assert(frame.mixins@.subrange(0, j + 1 as int).last()
                            == frame.mixins@[j as int]);
                        assert(find_mixin(frame.mixins@, name@)
                            == Some(frame.mixins@[j as int]@));
                        lemma_find_mixin_is_map(frame.mixins@, name@);
                        assert(self@[cur as int].mixins == mixins_map(frame.mixins@));
                        assert(spec_lookup_mixin(self@, cur as int, name@)
                            == Some(frame.mixins@[j as int]@));
                    }
                    return Some(&frame.mixins[j]);
                }
                proof {
                    assert(frame.mixins@.subrange(0, j + 1 as int).drop_last()
                        =~= frame.mixins@.subrange(0, j as int));
                }
            }
            proof {
                lemma_find_mixin_is_map(frame.mixins@, name@);
                assert(frame.mixins@.subrange(0, 0) =~= Seq::<MixinEntry>::empty());
                assert(!self@[cur as int].mixins.contains_key(name@));
            }
            match frame.parent {
                Some(p) => {
                    proof {
                        assert(self@[cur as int].parent == Some(p as int));
                        assert(spec_lookup_mixin(self@, cur as int, name@)
                            == spec_lookup_mixin(self@, p as int, name@));
                    }
                    cur = p;
                },
                None => {
                    proof {
                        assert(spec_lookup_mixin(self@, cur as int, name@) is None);
                    }
                    return None;
                },
            }
        }
    }
}


/// An exact copy of a list of identifiers.
pub fn dup_strings(v: &Vec<String>) -> (r: Vec<String>)
    ensures
        r@ == v@,
{
    let mut r: Vec<String> = Vec::new();
    let mut i: usize = 0;
    while i < v.len()
        invariant
            i <= v@.len(),
            r@ =~= v@.subrange(0, i as int),
        decreases v@.len() - i,
    {
        r.push(v[i].clone());
        proof {
            assert(r@ =~= v@.subrange(0, i + 1 as int));
        }
        i = i + 1;
    }
    proof {
        assert(v@.subrange(0, v@.len() as int) =~= v@);
    }
    r
}

/// An exact copy of a list of handles.
pub fn dup_ids(v: &Vec<usize>) -> (r: Vec<usize>)
    ensures
        r@ == v@,
{
    let mut r: Vec<usize> = Vec::new();
    let mut i: usize = 0;
    while i < v.len()
        invariant
            i <= v@.len(),
            r@ =~= v@.subrange(0, i as int),
        decreases v@.len() - i,
    {
        r.push(v[i]);
        proof {
            assert(r@ =~= v@.subrange(0, i + 1 as int));
        }
        i = i + 1;
    }
    proof {
        assert(v@.subrange(0, v@.len() as int) =~= v@);
    }
    r
}

impl MixinEntry {
    /// An exact copy of this template record.
    pub fn duplicate(&self) -> (r: MixinEntry)
        ensures
            r@ == self@,
            r.name@ == self.name@,
            r.params@ == self.params@,
            r.body@ == self.body@,
    {
        MixinEntry {
            name: self.name.clone(),
            params: dup_strings(&self.params),
            body: dup_ids(&self.body),
        }
    }
}

/// Shadowing law: when an identifier is bound in an outer frame and
/// bound again in an inner frame whose parent chain passes through the
/// outer frame, lookup inside the inner frame returns the inner value,
/// while lookup at the outer level (as a sibling of the inner construct
/// sees it after the inner frame's construct has ended) still returns
/// the outer value.
pub proof fn lemma_shadowing(
    frames: Seq<FrameM>,
    outer: int,
    inner: int,
    name: Seq<char>,
)
    requires
        frames_wf(frames),
        0 <= outer < frames.len(),
        0 <= inner < frames.len(),
        frames[inner].parent == Some(outer),
        frames[inner].vars.contains_key(name),
        frames[outer].vars.contains_key(name),
    ensures
        spec_lookup(frames, inner, name) == Some(frames[inner].vars[name]),
        spec_lookup(frames, outer, name) == Some(frames[outer].vars[name]),
{
}

} // verus!
