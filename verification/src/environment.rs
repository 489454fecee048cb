//! The environment: a chain of nested scopes, innermost last, each
//! holding a variable map and a separate constant map.
//!
//! The model of an environment is a sequence of [`FrameModel`]s, each a
//! pair of mathematical maps from names to values. Declaration touches
//! only the innermost scope; assignment walks outward through the
//! variable maps alone, so a name bound only as a constant is never
//! assignable; lookup walks outward through both maps.

use crate::values::RuntimeValue;
use vstd::prelude::*;

verus! {

/// A failure of declaration, assignment, or lookup.
#[derive(Debug, PartialEq, Eq)]
pub enum EnvError {
    Redeclaration(String),
    NotFound(String),
}

/// The mathematical form of an environment error.
pub enum EnvErrorModel {
    Redeclaration(Seq<char>),
    NotFound(Seq<char>),
}

impl View for EnvError {
    type V = EnvErrorModel;

    open spec fn view(&self) -> EnvErrorModel {
        match self {
            EnvError::Redeclaration(n) => EnvErrorModel::Redeclaration(n@),
            EnvError::NotFound(n) => EnvErrorModel::NotFound(n@),
        }
    }
}

/// The mathematical form of one scope.
pub struct FrameModel {
    pub vars: Map<Seq<char>, RuntimeValue>,
    pub consts: Map<Seq<char>, RuntimeValue>,
}

// ---------------------------------------------------------------------------
// Association lists and their maps
// ---------------------------------------------------------------------------

/// The map an association list denotes (with unique keys, which entry
/// wins is immaterial).
pub open spec fn assoc_map(s: Seq<(String, RuntimeValue)>) -> Map<Seq<char>, RuntimeValue>
    decreases s.len(),
{
    if s.len() == 0 {
        Map::empty()
    } else {
        assoc_map(s.drop_last()).insert(s.last().0@, s.last().1)
    }
}

pub open spec fn keys_unique(s: Seq<(String, RuntimeValue)>) -> bool {
    forall|i: int, j: int| 0 <= i < j < s.len() ==> (#[trigger] s[i]).0@ != (#[trigger] s[j]).0@
}

proof fn lemma_assoc_contains(s: Seq<(String, RuntimeValue)>, k: Seq<char>)
    ensures
        assoc_map(s).contains_key(k) <==> (exists|i: int| 0 <= i < s.len() && (#[trigger] s[i]).0@
            == k),
    decreases s.len(),
{
    if s.len() > 0 {
        lemma_assoc_contains(s.drop_last(), k);
        let d = s.drop_last();
        if assoc_map(s).contains_key(k) {
            if s.last().0@ != k {
                let i = choose|i: int| 0 <= i < d.len() && (#[trigger] d[i]).0@ == k;
                assert(s[i].0@ == k);
            }
        }
        if exists|i: int| 0 <= i < s.len() && (#[trigger] s[i]).0@ == k {
            let i = choose|i: int| 0 <= i < s.len() && (#[trigger] s[i]).0@ == k;
            if i < s.len() - 1 {
                assert(d[i].0@ == k);
            }
        }
    }
}

proof fn lemma_assoc_get(s: Seq<(String, RuntimeValue)>, i: int)
    requires
        keys_unique(s),
        0 <= i < s.len(),
    ensures
        assoc_map(s).contains_key(s[i].0@),
        assoc_map(s)[s[i].0@] == s[i].1,
    decreases s.len(),
{
    lemma_assoc_contains(s, s[i].0@);
    if i < s.len() - 1 {
        let d = s.drop_last();
        assert(d[i] == s[i]);
        lemma_assoc_get(d, i);
        assert(s.last().0@ != s[i].0@);
    }
}

proof fn lemma_assoc_update(s: Seq<(String, RuntimeValue)>, i: int, p: (String, RuntimeValue))
    requires
        keys_unique(s),
        0 <= i < s.len(),
        p.0@ == s[i].0@,
    ensures
        keys_unique(s.update(i, p)),
        assoc_map(s.update(i, p)) == assoc_map(s).insert(p.0@, p.1),
    decreases s.len(),
{
    let u = s.update(i, p);
    assert forall|a: int, b: int| 0 <= a < b < u.len() implies (#[trigger] u[a]).0@ != (
    #[trigger] u[b]).0@ by {
        assert(s[a].0@ != s[b].0@);
    }
    if i == s.len() - 1 {
        assert(u.drop_last() =~= s.drop_last());
        assert(assoc_map(u) == assoc_map(s.drop_last()).insert(p.0@, p.1));
        assert(assoc_map(s).insert(p.0@, p.1) =~= assoc_map(s.drop_last()).insert(p.0@, p.1));
    } else {
        let d = s.drop_last();
        assert(d[i] == s[i]);
        lemma_assoc_update(d, i, p);
        assert(u.drop_last() =~= d.update(i, p));
        assert(u.last() == s.last());
        assert(assoc_map(u) == assoc_map(d).insert(p.0@, p.1).insert(s.last().0@, s.last().1));
        assert(s.last().0@ != p.0@);
        assert(assoc_map(d).insert(p.0@, p.1).insert(s.last().0@, s.last().1) =~= assoc_map(
            d,
        ).insert(s.last().0@, s.last().1).insert(p.0@, p.1));
    }
}

// ---------------------------------------------------------------------------
// Scopes
// ---------------------------------------------------------------------------

/// One scope: its variable bindings and its constant bindings, as
/// association lists with unique, mutually disjoint keys.
#[derive(Debug)]
struct Frame {
    variables: Vec<(String, RuntimeValue)>,
    constants: Vec<(String, RuntimeValue)>,
}

impl View for Frame {
    type V = FrameModel;

    closed spec fn view(&self) -> FrameModel {
        FrameModel { vars: assoc_map(self.variables@), consts: assoc_map(self.constants@) }
    }
}

impl Frame {
    closed spec fn wf(&self) -> bool {
        &&& keys_unique(self.variables@)
        &&& keys_unique(self.constants@)
        &&& forall|i: int, j: int|
            0 <= i < self.variables@.len() && 0 <= j < self.constants@.len() ==> (
            #[trigger] self.variables@[i]).0@ != (#[trigger] self.constants@[j]).0@
    }
}

/// Find the entry of `name` in an association list.
fn list_find(list: &Vec<(String, RuntimeValue)>, name: &String) -> (r: Option<usize>)
    ensures
        match r {
            Some(i) => i < list@.len() && list@[i as int].0@ == name@,
            None => forall|j: int| 0 <= j < list@.len() ==> (#[trigger] list@[j]).0@ != name@,
        },
{
    let n = list.len();
    let mut j: usize = 0;
    while j < n
        invariant
            j <= n,
            n == list@.len(),
            forall|m: int| 0 <= m < j ==> (#[trigger] list@[m]).0@ != name@,
        decreases n - j,
    {
        if list[j].0 == *name {
            return Some(j);
        }
        j = j + 1;
    }
    None
}

// ---------------------------------------------------------------------------
// The environment model
// ---------------------------------------------------------------------------

/// The value of `name`, found in the innermost scope that binds it in
/// either map.
pub open spec fn env_lookup(frames: Seq<FrameModel>, name: Seq<char>) -> Option<RuntimeValue>
    decreases frames.len(),
{
    if frames.len() == 0 {
        None
    } else if frames.last().vars.contains_key(name) {
        Some(frames.last().vars[name])
    } else if frames.last().consts.contains_key(name) {
        Some(frames.last().consts[name])
    } else {
        env_lookup(frames.drop_last(), name)
    }
}

/// Whether some scope binds `name` as a variable (constants count for
/// nothing here).
pub open spec fn env_has_var(frames: Seq<FrameModel>, name: Seq<char>) -> bool
    decreases frames.len(),
{
    if frames.len() == 0 {
        false
    } else {
        frames.last().vars.contains_key(name) || env_has_var(frames.drop_last(), name)
    }
}

/// The innermost scope that binds `name` in either map, as an index into
/// the chain.
pub open spec fn env_resolve(frames: Seq<FrameModel>, name: Seq<char>) -> Option<int>
    decreases frames.len(),
{
    if frames.len() == 0 {
        None
    } else if frames.last().vars.contains_key(name) || frames.last().consts.contains_key(name) {
        Some(frames.len() - 1)
    } else {
        env_resolve(frames.drop_last(), name)
    }
}

/// Overwrite `name` in the innermost scope whose variable map binds it;
/// without such a scope the chain is unchanged.
pub open spec fn env_assign(
    frames: Seq<FrameModel>,
    name: Seq<char>,
    value: RuntimeValue,
) -> Seq<FrameModel>
    decreases frames.len(),
{
    if frames.len() == 0 {
        frames
    } else if frames.last().vars.contains_key(name) {
        frames.update(
            frames.len() - 1,
            FrameModel {
                vars: frames.last().vars.insert(name, value),
                consts: frames.last().consts,
            },
        )
    } else {
        env_assign(frames.drop_last(), name, value).push(frames.last())
    }
}

/// Whether `name` may be declared in the innermost scope: it must be
/// bound there neither as a variable nor as a constant.
pub open spec fn env_declarable(frames: Seq<FrameModel>, name: Seq<char>) -> bool {
    &&& frames.len() > 0
    &&& !frames.last().vars.contains_key(name)
    &&& !frames.last().consts.contains_key(name)
}

/// Bind `name` as a variable of the innermost scope.
pub open spec fn env_declare_var(
    frames: Seq<FrameModel>,
    name: Seq<char>,
    value: RuntimeValue,
) -> Seq<FrameModel> {
    frames.drop_last().push(
        FrameModel {
            vars: frames.last().vars.insert(name, value),
            consts: frames.last().consts,
        },
    )
}

/// Bind `name` as a constant of the innermost scope.
pub open spec fn env_declare_const(
    frames: Seq<FrameModel>,
    name: Seq<char>,
    value: RuntimeValue,
) -> Seq<FrameModel> {
    frames.drop_last().push(
        FrameModel {
            vars: frames.last().vars,
            consts: frames.last().consts.insert(name, value),
        },
    )
}

// ---------------------------------------------------------------------------
// The environment
// ---------------------------------------------------------------------------

/// A chain of scopes, the root first and the innermost last. Created
/// with one root scope; entering a nested scope pushes a fresh frame
/// onto the chain.
#[derive(Debug)]
pub struct Environment {
    frames: Vec<Frame>,
}

impl View for Environment {
    type V = Seq<FrameModel>;

    closed spec fn view(&self) -> Seq<FrameModel> {
        self.frames@.map_values(|f: Frame| f@)
    }
}

impl Environment {
    /// The environment's invariant: at least the root scope, and every
    /// scope's two maps keyed uniquely and disjointly.
    pub closed spec fn wf(&self) -> bool {
        &&& self.frames@.len() >= 1
        &&& forall|i: int| 0 <= i < self.frames@.len() ==> (#[trigger] self.frames@[i]).wf()
    }

    /// A scope chain: the root scope alone, or a fresh innermost scope
    /// around the given environment.
    pub fn create(parent: Option<Box<Environment>>) -> (r: Environment)
        requires
            match parent {
                Some(p) => p.wf(),
                None => true,
            },
        ensures
            r.wf(),
            match parent {
                Some(p) => r@ == p@.push(FrameModel { vars: Map::empty(), consts: Map::empty() }),
                None => r@ =~= seq![
                    FrameModel { vars: Map::empty(), consts: Map::empty() },
                ],
            },
    {
        let fresh = Frame { variables: Vec::new(), constants: Vec::new() };
        proof {
            assert(fresh@.vars =~= Map::<Seq<char>, RuntimeValue>::empty());
            assert(fresh@.consts =~= Map::<Seq<char>, RuntimeValue>::empty());
        }
        match parent {
            None => {
                let e = Environment { frames: vec![fresh] };
                proof {
                    assert(e@ =~= seq![fresh@]);
                }
                e
            },
            Some(p) => {
                let mut e = *p;
                let ghost before = e@;
                e.frames.push(fresh);
                proof {
                    assert(e@ =~= before.push(fresh@));
                }
                e
            },
        }
    }

    /// Bind `variable_name` as a variable of the innermost scope; fail
    /// with `Redeclaration` if that scope already binds the name, as a
    /// variable or as a constant, leaving every scope unchanged.
    pub fn declare_variable(&mut self, variable_name: &str, value: RuntimeValue) -> (r: Result<
        (),
        EnvError,
    >)
        requires
            old(self).wf(),
        ensures
            final(self).wf(),
            match r {
                Ok(_) => {
                    &&& env_declarable(old(self)@, variable_name@)
                    &&& final(self)@ == env_declare_var(old(self)@, variable_name@, value)
                },
                Err(e) => {
                    &&& !env_declarable(old(self)@, variable_name@)
                    &&& final(self)@ == old(self)@
                    &&& e@ == EnvErrorModel::Redeclaration(variable_name@)
                },
            },
    {
        let ghost old_view = self@;
        let name_owned = variable_name.to_owned();
        let mut top = self.frames.pop().unwrap();
        let ghost top0 = top;
        let in_vars = list_find(&top.variables, &name_owned);
        let in_consts = list_find(&top.constants, &name_owned);
        proof {
            assert(old_view.last() == top0@);
            lemma_assoc_contains(top0.variables@, variable_name@);
            lemma_assoc_contains(top0.constants@, variable_name@);
        }
        if in_vars.is_some() || in_consts.is_some() {
            self.frames.push(top);
            proof {
                assert(self.frames@ =~= old(self).frames@);
                assert(self@ == old_view);
            }
            Err(EnvError::Redeclaration(name_owned))
        } else {
            let ghost vars0 = top.variables@;
            top.variables.push((name_owned, value));
            proof {
                assert(top.variables@.drop_last() =~= vars0);
                assert forall|i: int, j: int|
                    0 <= i < j < top.variables@.len() implies (#[trigger] top.variables@[i]).0@
                    != (#[trigger] top.variables@[j]).0@ by {
                    if j == top.variables@.len() - 1 {
                        assert(top.variables@[i] == vars0[i]);
                    } else {
                        assert(top.variables@[i] == vars0[i]);
                        assert(top.variables@[j] == vars0[j]);
                    }
                }
                assert forall|i: int, j: int|
                    0 <= i < top.variables@.len() && 0 <= j < top.constants@.len() implies (
                #[trigger] top.variables@[i]).0@ != (#[trigger] top.constants@[j]).0@ by {
                    if i < top.variables@.len() - 1 {
                        assert(top.variables@[i] == vars0[i]);
                    }
                }
                assert(top@.vars =~= top0@.vars.insert(variable_name@, value));
                assert(top@.consts == top0@.consts);
            }
            self.frames.push(top);
            proof {
                assert(self.frames@ =~= old(self).frames@.drop_last().push(top));
                assert(self@ =~= env_declare_var(old_view, variable_name@, value));
                assert forall|i: int| 0 <= i < self.frames@.len() implies (
                #[trigger] self.frames@[i]).wf() by {
                    if i < self.frames@.len() - 1 {
                        assert(self.frames@[i] == old(self).frames@[i]);
                    }
                }
            }
            Ok(())
        }
    }

    /// Bind `constant_name` as a constant of the innermost scope; fail
    /// with `Redeclaration` if that scope already binds the name, as a
    /// variable or as a constant, leaving every scope unchanged.
    pub fn declare_constant(&mut self, constant_name: &str, value: RuntimeValue) -> (r: Result<
        (),
        EnvError,
    >)
        requires
            old(self).wf(),
        ensures
            final(self).wf(),
            match r {
                Ok(_) => {
                    &&& env_declarable(old(self)@, constant_name@)
                    &&& final(self)@ == env_declare_const(old(self)@, constant_name@, value)
                },
                Err(e) => {
                    &&& !env_declarable(old(self)@, constant_name@)
                    &&& final(self)@ == old(self)@
                    &&& e@ == EnvErrorModel::Redeclaration(constant_name@)
                },
            },
    {
        let ghost old_view = self@;
        let name_owned = constant_name.to_owned();
        let mut top = self.frames.pop().unwrap();
        let ghost top0 = top;
        let in_vars = list_find(&top.variables, &name_owned);
        let in_consts = list_find(&top.constants, &name_owned);
        proof {
            assert(old_view.last() == top0@);
            lemma_assoc_contains(top0.variables@, constant_name@);
            lemma_assoc_contains(top0.constants@, constant_name@);
        }
        if in_vars.is_some() || in_consts.is_some() {
            self.frames.push(top);
            proof {
                assert(self.frames@ =~= old(self).frames@);
                assert(self@ == old_view);
            }
            Err(EnvError::Redeclaration(name_owned))
        } else {
            let ghost consts0 = top.constants@;
            top.constants.push((name_owned, value));
            proof {
                assert(top.constants@.drop_last() =~= consts0);
                assert forall|i: int, j: int|
                    0 <= i < j < top.constants@.len() implies (#[trigger] top.constants@[i]).0@
                    != (#[trigger] top.constants@[j]).0@ by {
                    if j == top.constants@.len() - 1 {
                        assert(top.constants@[i] == consts0[i]);
                    } else {
                        assert(top.constants@[i] == consts0[i]);
                        assert(top.constants@[j] == consts0[j]);
                    }
                }
                assert forall|i: int, j: int|
                    0 <= i < top.variables@.len() && 0 <= j < top.constants@.len() implies (
                #[trigger] top.variables@[i]).0@ != (#[trigger] top.constants@[j]).0@ by {
                    if j < top.constants@.len() - 1 {
                        assert(top.constants@[j] == consts0[j]);
                    }
                }
                assert(top@.consts =~= top0@.consts.insert(constant_name@, value));
                assert(top@.vars == top0@.vars);
            }
            self.frames.push(top);
            proof {
                assert(self.frames@ =~= old(self).frames@.drop_last().push(top));
                assert(self@ =~= env_declare_const(old_view, constant_name@, value));
                assert forall|i: int| 0 <= i < self.frames@.len() implies (
                #[trigger] self.frames@[i]).wf() by {
                    if i < self.frames@.len() - 1 {
                        assert(self.frames@[i] == old(self).frames@[i]);
                    }
                }
            }
            Ok(())
        }
    }

    /// Overwrite `variable_name` in the innermost scope whose variable
    /// map binds it, walking outward from the innermost scope; fail with
    /// `NotFound` when no scope binds it as a variable — in particular
    /// when it is bound only as a constant.
    pub fn assign_variable(&mut self, variable_name: &String, value: RuntimeValue) -> (r: Result<
        (),
        EnvError,
    >)
        requires
            old(self).wf(),
        ensures
            final(self).wf(),
            match r {
                Ok(_) => {
                    &&& env_has_var(old(self)@, variable_name@)
                    &&& final(self)@ == env_assign(old(self)@, variable_name@, value)
                },
                Err(e) => {
                    &&& !env_has_var(old(self)@, variable_name@)
                    &&& final(self)@ == old(self)@
                    &&& e@ == EnvErrorModel::NotFound(variable_name@)
                },
            },
    {
        let ghost whole = self@;
        let n = self.frames.len();
        let mut i: usize = n;
        proof {
            assert(whole.take(n as int) =~= whole);
            assert(whole.skip(n as int) =~= Seq::<FrameModel>::empty());
            assert(env_assign(whole, variable_name@, value) + whole.skip(n as int) =~= env_assign(
                whole,
                variable_name@,
                value,
            ));
        }
        while i > 0
            invariant
                i <= n,
                n == self.frames@.len(),
                self.frames@ == old(self).frames@,
                whole == self@,
                old(self).wf(),
                env_has_var(whole, variable_name@) == env_has_var(
                    whole.take(i as int),
                    variable_name@,
                ),
                env_assign(whole, variable_name@, value) == env_assign(
                    whole.take(i as int),
                    variable_name@,
                    value,
                ) + whole.skip(i as int),
            decreases i,
        {
            let idx = i - 1;
            let found = list_find(&self.frames[idx].variables, variable_name);
            let ghost pre = whole.take(i as int);
            proof {
                assert(pre.last() == whole[idx as int]);
                assert(whole[idx as int] == self.frames@[idx as int]@);
                lemma_assoc_contains(self.frames@[idx as int].variables@, variable_name@);
            }
            match found {
                Some(pos) => {
                    let mut frame = Frame { variables: Vec::new(), constants: Vec::new() };
                    self.frames.set_and_swap(idx, &mut frame);
                    let ghost frame0 = frame;
                    let new_pair = (variable_name.clone(), value);
                    frame.variables.set(pos, new_pair);
                    proof {
                        lemma_assoc_update(frame0.variables@, pos as int, new_pair);
                        assert forall|a: int, b: int|
                            0 <= a < frame.variables@.len() && 0 <= b
                                < frame.constants@.len() implies (
                        #[trigger] frame.variables@[a]).0@ != (
                        #[trigger] frame.constants@[b]).0@ by {
                            if a != pos {
                                assert(frame.variables@[a] == frame0.variables@[a]);
                            }
                            assert(frame0.variables@[a].0@ != frame0.constants@[b].0@);
                        }
                        assert(frame@.vars == frame0@.vars.insert(variable_name@, value));
                        assert(frame@.consts == frame0@.consts);
                    }
                    self.frames.set(idx, frame);
                    proof {
                        assert(env_assign(pre, variable_name@, value) == pre.update(
                            idx as int,
                            FrameModel {
                                vars: pre.last().vars.insert(variable_name@, value),
                                consts: pre.last().consts,
                            },
                        ));
                        assert(self@ =~= env_assign(pre, variable_name@, value) + whole.skip(
                            i as int,
                        ));
                        assert(env_has_var(pre, variable_name@));
                        assert forall|k: int| 0 <= k < self.frames@.len() implies (
                        #[trigger] self.frames@[k]).wf() by {
                            if k != idx {
                                assert(self.frames@[k] == old(self).frames@[k]);
                            }
                        }
                    }
                    return Ok(());
                },
                None => {
                    proof {
                        assert(!pre.last().vars.contains_key(variable_name@));
                        assert(pre.drop_last() =~= whole.take(idx as int));
                        assert(env_assign(pre, variable_name@, value) == env_assign(
                            whole.take(idx as int),
                            variable_name@,
                            value,
                        ).push(pre.last()));
                        assert(env_assign(whole.take(idx as int), variable_name@, value).push(
                            pre.last(),
                        ) + whole.skip(i as int) =~= env_assign(
                            whole.take(idx as int),
                            variable_name@,
                            value,
                        ) + whole.skip(idx as int));
                    }
                    i = idx;
                },
            }
        }
        proof {
            assert(whole.take(0) =~= Seq::<FrameModel>::empty());
            assert(!env_has_var(whole, variable_name@));
            assert(env_assign(whole, variable_name@, value) =~= whole);
        }
        Err(EnvError::NotFound(variable_name.clone()))
    }

    /// The innermost scope that binds `variable_name` in either map, as
    /// an index into the chain (the root scope is index zero).
    pub fn resolve(&self, variable_name: &String) -> (r: Option<usize>)
        requires
            self.wf(),
        ensures
            match r {
                Some(i) => env_resolve(self@, variable_name@) == Some(i as int),
                None => env_resolve(self@, variable_name@) is None,
            },
    {
        let n = self.frames.len();
        let mut i: usize = n;
        proof {
            assert(self@.take(n as int) =~= self@);
        }
        while i > 0
            invariant
                i <= n,
                n == self.frames@.len(),
                env_resolve(self@, variable_name@) == env_resolve(
                    self@.take(i as int),
                    variable_name@,
                ),
            decreases i,
        {
            let idx = i - 1;
            let in_vars = list_find(&self.frames[idx].variables, variable_name);
            let in_consts = list_find(&self.frames[idx].constants, variable_name);
            let ghost pre = self@.take(i as int);
            proof {
                assert(pre.last() == self@[idx as int]);
                assert(self@[idx as int] == self.frames@[idx as int]@);
                lemma_assoc_contains(self.frames@[idx as int].variables@, variable_name@);
                lemma_assoc_contains(self.frames@[idx as int].constants@, variable_name@);
            }
            if in_vars.is_some() || in_consts.is_some() {
                return Some(idx);
            }
            proof {
                assert(pre.drop_last() =~= self@.take(idx as int));
            }
            i = idx;
        }
        proof {
            assert(self@.take(0) =~= Seq::<FrameModel>::empty());
        }
        None
    }

    /// The value of `variable_name`, read from the innermost scope that
    /// binds it in either map.
    pub fn lookup(&self, variable_name: &String) -> (r: Option<RuntimeValue>)
        requires
            self.wf(),
        ensures
            r == env_lookup(self@, variable_name@),
    {
        let n = self.frames.len();
        let mut i: usize = n;
        proof {
            assert(self@.take(n as int) =~= self@);
        }
        while i > 0
            invariant
                i <= n,
                n == self.frames@.len(),
                self.wf(),
                env_lookup(self@, variable_name@) == env_lookup(
                    self@.take(i as int),
                    variable_name@,
                ),
            decreases i,
        {
            let idx = i - 1;
            let in_vars = list_find(&self.frames[idx].variables, variable_name);
            let ghost pre = self@.take(i as int);
            proof {
                assert(pre.last() == self@[idx as int]);
                assert(self@[idx as int] == self.frames@[idx as int]@);
                assert(self.frames@[idx as int].wf());
                lemma_assoc_contains(self.frames@[idx as int].variables@, variable_name@);
            }
            match in_vars {
                Some(pos) => {
                    proof {
                        lemma_assoc_get(self.frames@[idx as int].variables@, pos as int);
                    }
                    return Some(self.frames[idx].variables[pos].1);
                },
                None => {},
            }
            let in_consts = list_find(&self.frames[idx].constants, variable_name);
            proof {
                lemma_assoc_contains(self.frames@[idx as int].constants@, variable_name@);
            }
            match in_consts {
                Some(pos) => {
                    proof {
                        lemma_assoc_get(self.frames@[idx as int].constants@, pos as int);
                    }
                    return Some(self.frames[idx].constants[pos].1);
                },
                None => {},
            }
            proof {
                assert(pre.drop_last() =~= self@.take(idx as int));
            }
            i = idx;
        }
        proof {
            assert(self@.take(0) =~= Seq::<FrameModel>::empty());
        }
        None
    }
}

// ---------------------------------------------------------------------------
// Laws of the scope chain
// ---------------------------------------------------------------------------

/// Shadowing: declaring any name in a freshly entered scope always
/// succeeds, even when an enclosing scope binds the same name; lookup
/// then finds the new binding; and no binding of an enclosing scope is
/// touched — every other name still looks up to exactly what it did
/// outside.
pub proof fn lemma_child_scope_shadowing(
    outer: Seq<FrameModel>,
    name: Seq<char>,
    value: RuntimeValue,
)
    ensures
        ({
            let child = outer.push(FrameModel { vars: Map::empty(), consts: Map::empty() });
            let declared = env_declare_var(child, name, value);
            &&& env_declarable(child, name)
            &&& declared.drop_last() == outer
            &&& env_lookup(declared, name) == Some(value)
            &&& forall|other: Seq<char>|
                other != name ==> env_lookup(declared, other) == env_lookup(outer, other)
        }),
{
    let child = outer.push(FrameModel { vars: Map::empty(), consts: Map::empty() });
    let declared = env_declare_var(child, name, value);
    assert(child.drop_last() =~= outer);
    assert(declared.drop_last() =~= outer);
    assert(declared.last().vars.contains_key(name));
    assert forall|other: Seq<char>| other != name implies env_lookup(declared, other)
        == env_lookup(outer, other) by {
        assert(!declared.last().vars.contains_key(other));
        assert(!declared.last().consts.contains_key(other));
    }
}

/// Lookup reads through resolution: a name has a value exactly when some
/// scope resolves it, and the value comes from the resolved scope's own
/// maps, variables first.
pub proof fn lemma_lookup_follows_resolve(frames: Seq<FrameModel>, name: Seq<char>)
    ensures
        env_lookup(frames, name) is Some <==> env_resolve(frames, name) is Some,
        match env_resolve(frames, name) {
            Some(i) => {
                &&& 0 <= i < frames.len()
                &&& env_lookup(frames, name) == (if frames[i].vars.contains_key(name) {
                    Some(frames[i].vars[name])
                } else {
                    Some(frames[i].consts[name])
                })
            },
            None => env_lookup(frames, name) is None,
        },
    decreases frames.len(),
{
    if frames.len() > 0 {
        lemma_lookup_follows_resolve(frames.drop_last(), name);
    }
}

/// Constant immutability: a name that no scope binds as a variable — in
/// particular one bound only as a constant — is not assignable: the
/// assignment walk leaves every scope exactly as it was.
pub proof fn lemma_constants_not_assignable(
    frames: Seq<FrameModel>,
    name: Seq<char>,
    value: RuntimeValue,
)
    requires
        !env_has_var(frames, name),
    ensures
        env_assign(frames, name, value) == frames,
    decreases frames.len(),
{
    if frames.len() > 0 {
        lemma_constants_not_assignable(frames.drop_last(), name, value);
        assert(env_assign(frames, name, value) =~= frames);
    } else {
        assert(env_assign(frames, name, value) =~= frames);
    }
}

} // verus!
