use crate::dict::Dict;
use crate::error::{RuntimeError, RuntimeErrorKind};
use crate::heap::Heap;
use crate::object::Object;
use vstd::prelude::*;

verus! {

/// One link of the environment chain: the names bound in a scope, and the
/// environment of the scope around it.
#[derive(Debug)]
pub struct Environment {
    pub enclosing: Option<usize>,
    pub values: Dict<Object>,
}

impl Heap {
    /// The environment `distance` links out from `env`.
    pub open spec fn ancestor(&self, env: usize, distance: nat) -> Option<usize>
        decreases distance,
    {
        if env >= self.environments@.len() {
            None
        } else if distance == 0 {
            Some(env)
        } else {
            match self.environments@[env as int].enclosing {
                Some(parent) => self.ancestor(parent, (distance - 1) as nat),
                None => None,
            }
        }
    }

    /// The first environment on the chain from `env` outwards that binds
    /// `name`.
    pub open spec fn binder(&self, env: usize, name: Seq<char>) -> Option<usize>
        decreases env,
    {
        if env >= self.environments@.len() {
            None
        } else if self.environments@[env as int].values@.contains_key(name) {
            Some(env)
        } else {
            match self.environments@[env as int].enclosing {
                Some(parent) => if parent < env {
                    self.binder(parent, name)
                } else {
                    None
                },
                None => None,
            }
        }
    }

    /// What `name` is bound to in the environment `distance` links out from
    /// `env`, if the chain is that long and that environment binds the name.
    pub open spec fn found_at(&self, env: usize, distance: nat, name: Seq<char>) -> Option<
        Object,
    > {
        match self.ancestor(env, distance) {
            Some(a) => if self.environments@[a as int].values@.contains_key(name) {
                Some(self.bound(a, name))
            } else {
                None
            },
            None => None,
        }
    }

    /// What `name` is bound to in the environment `distance` links out from
    /// `env`; `nil` where the chain is shorter or that environment does not
    /// bind the name.
    pub open spec fn at(&self, env: usize, distance: nat, name: Seq<char>) -> Object {
        match self.found_at(env, distance, name) {
            Some(value) => value,
            None => Object::Nil,
        }
    }

    /// What `name` is bound to in the environment `env`.
    pub open spec fn bound(&self, env: usize, name: Seq<char>) -> Object {
        self.environments@[env as int].values@[name]
    }

    /// The heap is `pre` with one more environment, which binds `values`.
    pub open spec fn with_new_environment(
        &self,
        pre: &Heap,
        enclosing: Option<usize>,
        values: Map<Seq<char>, Object>,
    ) -> bool {
        &&& self.ast == pre.ast
        &&& self.classes == pre.classes
        &&& self.instances == pre.instances
        &&& self.environments@.len() == pre.environments@.len() + 1
        &&& self.environments@.drop_last() == pre.environments@
        &&& self.environments@.last().enclosing == enclosing
        &&& self.environments@.last().values@ == values
    }

    /// The heap is `pre` but for the environment `env`, which binds `values`.
    pub open spec fn with_bindings(&self, pre: &Heap, env: usize, values: Map<Seq<char>, Object>)
        -> bool {
        &&& self.ast == pre.ast
        &&& self.classes == pre.classes
        &&& self.instances == pre.instances
        &&& self.environments@.len() == pre.environments@.len()
        &&& forall|j: int|
            0 <= j < self.environments@.len() && j != env ==> #[trigger] self.environments@[j]
                == pre.environments@[j]
        &&& self.environments@[env as int].enclosing == pre.environments@[env as int].enclosing
        &&& self.environments@[env as int].values@ == values
    }

    /// The heap is `pre` with `name` bound to `value` in the environment
    /// `env`.
    pub open spec fn with_binding(&self, pre: &Heap, env: usize, name: Seq<char>, value: Object)
        -> bool {
        self.with_bindings(pre, env, pre.environments@[env as int].values@.insert(name, value))
    }

    /// One more environment inside another keeps the heap rooted.
    pub proof fn lemma_rooted_new(
        &self,
        pre: &Heap,
        enclosing: Option<usize>,
        values: Map<Seq<char>, Object>,
    )
        requires
            pre.rooted(),
            self.with_new_environment(pre, enclosing, values),
            enclosing is Some || pre.environments@.len() == 0,
        ensures
            self.rooted(),
    {
        assert forall|i: int| 0 < i < self.environments@.len() implies (
        #[trigger] self.environments@[i]).enclosing is Some by {
            if i < pre.environments@.len() {
                assert(self.environments@.drop_last()[i] == self.environments@[i]);
                assert(pre.environments@[i].enclosing is Some);
            }
        }
    }

    /// New bindings in an environment keep the heap rooted.
    pub proof fn lemma_rooted_bindings(
        &self,
        pre: &Heap,
        env: usize,
        values: Map<Seq<char>, Object>,
    )
        requires
            pre.rooted(),
            self.with_bindings(pre, env, values),
        ensures
            self.rooted(),
    {
        assert forall|i: int| 0 < i < self.environments@.len() implies (
        #[trigger] self.environments@[i]).enclosing is Some by {
            assert(pre.environments@[i].enclosing is Some);
        }
    }

    /// The environments form a tree with the first one as its root: from
    /// every environment the chain of enclosing environments comes to the
    /// first one, after no more links than the environment's index.
    pub proof fn lemma_rooted_chain(&self, env: usize)
        requires
            self.wf(),
            self.rooted(),
            env < self.environments@.len(),
        ensures
            exists|distance: nat| distance <= env && self.ancestor(env, distance) == Some(0usize),
        decreases env,
    {
        if env == 0 {
            assert(self.ancestor(env, 0) == Some(0usize));
        } else {
            self.lemma_environment(env as int);
            let parent = self.environments@[env as int].enclosing.unwrap();
            self.lemma_rooted_chain(parent);
            let shorter = choose|distance: nat|
                distance <= parent && self.ancestor(parent, distance) == Some(0usize);
            assert(self.ancestor(env, shorter + 1) == self.ancestor(parent, shorter));
        }
    }

    /// In a well-formed heap a value read from an environment names only
    /// what exists, and an enclosing environment lies before the enclosed.
    pub proof fn lemma_environment(&self, env: int)
        requires
            self.wf(),
            0 <= env < self.environments@.len(),
        ensures
            self.environment_wf(env),
    {
        reveal(Heap::wf);
    }
}

impl Environment {
    /// Makes an environment that binds nothing, inside `enclosing`, and says
    /// where it stands.
    pub fn new(heap: &mut Heap, enclosing: Option<usize>) -> (id: usize)
        requires
            old(heap).wf(),
            enclosing matches Some(parent) ==> parent < old(heap).environments@.len(),
        ensures
            final(heap).wf(),
            final(heap).with_new_environment(old(heap), enclosing, Map::empty()),
            id == old(heap).environments@.len(),
            old(heap).rooted() && (enclosing is Some || id == 0) ==> final(heap).rooted(),
    {
        let id: usize = heap.environments.len();
        heap.environments.push(Environment { enclosing, values: Dict::new() });
        proof {
            reveal(Heap::wf);
            assert(heap.environments@.drop_last() =~= old(heap).environments@);
            if old(heap).rooted() && (enclosing is Some || id == 0) {
                heap.lemma_rooted_new(old(heap), enclosing, Map::empty());
            }
            assert(heap.environments@.drop_last() =~= old(heap).environments@);
            assert forall|i: int| 0 <= i < heap.environments@.len() implies #[trigger] heap
                .environment_wf(i) by {
                if i < id {
                    assert(old(heap).environment_wf(i));
                    assert(heap.environments@[i] == old(heap).environments@[i]);
                }
            }
            assert forall|i: int| 0 <= i < heap.classes@.len() implies #[trigger] heap.class_wf(
                i,
            ) by {
                assert(old(heap).class_wf(i));
            }
            assert forall|i: int| 0 <= i < heap.instances@.len() implies #[trigger] heap
                .instance_wf(i) by {
                assert(old(heap).instance_wf(i));
            }
        }
        id
    }

    /// Binds `name` to `value` in the environment `env`, whatever it was
    /// bound to there.
    pub fn define(heap: &mut Heap, env: usize, name: String, value: Object)
        requires
            old(heap).wf(),
            env < old(heap).environments@.len(),
            old(heap).holds(value),
        ensures
            final(heap).wf(),
            final(heap).with_binding(old(heap), env, name@, value),
            old(heap).rooted() ==> final(heap).rooted(),
    {
        proof {
            reveal(Heap::wf);
            assert(heap.environment_wf(env as int));
        }
        heap.environments[env].values.insert(name, value);
        proof {
            if old(heap).rooted() {
                heap.lemma_rooted_bindings(
                    old(heap),
                    env,
                    old(heap).environments@[env as int].values@.insert(name@, value),
                );
            }
            assert forall|i: int| 0 <= i < heap.environments@.len() implies #[trigger] heap
                .environment_wf(i) by {
                assert(old(heap).environment_wf(i));
            }
            assert forall|i: int| 0 <= i < heap.classes@.len() implies #[trigger] heap.class_wf(
                i,
            ) by {
                assert(old(heap).class_wf(i));
            }
            assert forall|i: int| 0 <= i < heap.instances@.len() implies #[trigger] heap
                .instance_wf(i) by {
                assert(old(heap).instance_wf(i));
            }
        }
    }

    /// Reads the variable named by the token `var_name`, from the first
    /// environment on the chain from `env` outwards that binds it.
    pub fn get(heap: &Heap, env: usize, var_name: usize) -> (r: Result<Object, RuntimeError>)
        requires
            heap.wf(),
            env < heap.environments@.len(),
            var_name < heap.ast.tokens@.len(),
        ensures
            match heap.binder(env, heap.ast.text(var_name)) {
                Some(b) => r == Ok::<Object, RuntimeError>(
                    heap.bound(b, heap.ast.text(var_name)),
                ),
                None => r == Err::<Object, RuntimeError>(
                    RuntimeError { kind: RuntimeErrorKind::UndefinedVariable, token: var_name },
                ),
            },
            r matches Ok(value) ==> heap.holds(value),
    {
        let name: &String = &heap.ast.tokens[var_name].lexeme;
        let mut current: usize = env;
        loop
            invariant
                heap.wf(),
                current < heap.environments@.len(),
                var_name < heap.ast.tokens@.len(),
                *name == heap.ast.tokens@[var_name as int].lexeme,
                heap.binder(current, name@) == heap.binder(env, name@),
            decreases current,
        {
            proof {
                heap.lemma_environment(current as int);
            }
            match heap.environments[current].values.get(name) {
                Some(value) => {
                    return Ok(value.clone());
                },
                None => {},
            }
            match heap.environments[current].enclosing {
                Some(parent) => {
                    current = parent;
                },
                None => {
                    return Err(
                        RuntimeError { kind: RuntimeErrorKind::UndefinedVariable, token: var_name },
                    );
                },
            }
        }
    }

    /// Rebinds the variable named by the token `var_name` in the first
    /// environment on the chain from `env` outwards that binds it.
    pub fn assign(heap: &mut Heap, env: usize, var_name: usize, value: Object) -> (r: Result<
        (),
        RuntimeError,
    >)
        requires
            old(heap).wf(),
            env < old(heap).environments@.len(),
            var_name < old(heap).ast.tokens@.len(),
            old(heap).holds(value),
        ensures
            final(heap).wf(),
            old(heap).rooted() ==> final(heap).rooted(),
            match old(heap).binder(env, old(heap).ast.text(var_name)) {
                Some(b) => r is Ok && final(heap).with_binding(
                    old(heap),
                    b,
                    old(heap).ast.text(var_name),
                    value,
                ),
                None => r == Err::<(), RuntimeError>(
                    RuntimeError { kind: RuntimeErrorKind::UndefinedVariable, token: var_name },
                ) && *final(heap) == *old(heap),
            },
    {
        let name: String = heap.ast.tokens[var_name].lexeme.clone();
        let mut current: usize = env;
        loop
            invariant
                heap.wf(),
                *heap == *old(heap),
                heap.holds(value),
                current < heap.environments@.len(),
                var_name < heap.ast.tokens@.len(),
                name == heap.ast.tokens@[var_name as int].lexeme,
                heap.binder(current, name@) == heap.binder(env, name@),
            decreases current,
        {
            proof {
                heap.lemma_environment(current as int);
            }
            if heap.environments[current].values.contains_key(&name) {
                Environment::define(heap, current, name, value);
                return Ok(());
            }
            match heap.environments[current].enclosing {
                Some(parent) => {
                    current = parent;
                },
                None => {
                    return Err(
                        RuntimeError { kind: RuntimeErrorKind::UndefinedVariable, token: var_name },
                    );
                },
            }
        }
    }
}

/// The environment `distance` links out from `environment`, if the chain is
/// that long.
fn ancestor(heap: &Heap, environment: usize, distance: usize) -> (r: Option<usize>)
    requires
        heap.wf(),
        environment < heap.environments@.len(),
    ensures
        r == heap.ancestor(environment, distance as nat),
        r matches Some(a) ==> a < heap.environments@.len(),
{
    let mut env: usize = environment;
    let mut left: usize = distance;
    while left > 0
        invariant
            heap.wf(),
            env < heap.environments@.len(),
            heap.ancestor(env, left as nat) == heap.ancestor(environment, distance as nat),
        decreases left,
    {
        proof {
            heap.lemma_environment(env as int);
        }
        match heap.environments[env].enclosing {
            Some(parent) => {
                env = parent;
            },
            None => {
                return None;
            },
        }
        left -= 1;
    }
    Some(env)
}

/// Reads `name` from the environment `distance` links out from
/// `environment`, if the chain is that long and that environment binds the
/// name.
pub fn find_at(heap: &Heap, environment: usize, distance: usize, name: &String) -> (r: Option<
    Object,
>)
    requires
        heap.wf(),
        environment < heap.environments@.len(),
    ensures
        r == heap.found_at(environment, distance as nat, name@),
        r matches Some(value) ==> heap.holds(value),
{
    match ancestor(heap, environment, distance) {
        Some(a) => {
            proof {
                heap.lemma_environment(a as int);
            }
            match heap.environments[a].values.get(name) {
                Some(value) => Some(value.clone()),
                None => None,
            }
        },
        None => None,
    }
}

/// Reads `name` from the environment `distance` links out from
/// `environment`. Where the chain is shorter, or that environment does not
/// bind the name, the value is `nil`.
pub fn get_at(heap: &Heap, environment: usize, distance: usize, name: &String) -> (r: Result<
    Object,
    RuntimeError,
>)
    requires
        heap.wf(),
        environment < heap.environments@.len(),
    ensures
        r == Ok::<Object, RuntimeError>(heap.at(environment, distance as nat, name@)),
        r matches Ok(value) && heap.holds(value),
{
    match find_at(heap, environment, distance, name) {
        Some(value) => Ok(value),
        None => Ok(Object::Nil),
    }
}

/// Binds the name of the token `name` to `value` in the environment
/// `distance` links out from `environment`. Where the chain is shorter,
/// nothing changes.
pub fn assign_at(heap: &mut Heap, environment: usize, distance: usize, name: usize, value: Object)
    -> (r: Result<(), RuntimeError>)
    requires
        old(heap).wf(),
        environment < old(heap).environments@.len(),
        name < old(heap).ast.tokens@.len(),
        old(heap).holds(value),
    ensures
        final(heap).wf(),
        old(heap).rooted() ==> final(heap).rooted(),
        r is Ok,
        match old(heap).ancestor(environment, distance as nat) {
            Some(a) => final(heap).with_binding(old(heap), a, old(heap).ast.text(name), value),
            None => *final(heap) == *old(heap),
        },
{
    match ancestor(heap, environment, distance) {
        Some(a) => {
            let text: String = heap.ast.tokens[name].lexeme.clone();
            Environment::define(heap, a, text, value);
        },
        None => {},
    }
    Ok(())
}

} // verus!
