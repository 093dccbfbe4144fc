use crate::callable::LoxCallable;
use crate::dict::Dict;
use crate::environment::Environment;
use crate::error::{RuntimeError, RuntimeErrorKind};
use crate::heap::Heap;
use crate::object::Object;
use vstd::prelude::*;
use vstd::string::*;

verus! {

/// A class: its name, its superclass if it has one, and its own methods.
#[derive(Debug)]
pub struct LoxClass {
    pub name: String,
    pub superclass: Option<usize>,
    pub methods: Dict<LoxCallable>,
}

/// An instance: its class and its fields.
#[derive(Debug)]
pub struct LoxInstance {
    pub class: usize,
    pub fields: Dict<Object>,
}

impl Heap {
    /// The method `name` of the class `class`: its own, or else that of the
    /// nearest superclass that has one.
    pub open spec fn method(&self, class: usize, name: Seq<char>) -> Option<LoxCallable>
        decreases class,
    {
        if class >= self.classes@.len() {
            None
        } else if self.classes@[class as int].methods@.contains_key(name) {
            Some(self.classes@[class as int].methods@[name])
        } else {
            match self.classes@[class as int].superclass {
                Some(parent) => if parent < class {
                    self.method(parent, name)
                } else {
                    None
                },
                None => None,
            }
        }
    }

    /// The heap is `pre` with one more class.
    pub open spec fn with_new_class(
        &self,
        pre: &Heap,
        name: Seq<char>,
        superclass: Option<usize>,
        methods: Map<Seq<char>, LoxCallable>,
    ) -> bool {
        &&& self.ast == pre.ast
        &&& self.environments == pre.environments
        &&& self.instances == pre.instances
        &&& self.classes@.len() == pre.classes@.len() + 1
        &&& self.classes@.drop_last() == pre.classes@
        &&& self.classes@.last().name@ == name
        &&& self.classes@.last().superclass == superclass
        &&& self.classes@.last().methods@ == methods
    }

    /// The heap is `pre` with one more instance, of the class `class` and
    /// without fields.
    pub open spec fn with_new_instance(&self, pre: &Heap, class: usize) -> bool {
        &&& self.ast == pre.ast
        &&& self.environments == pre.environments
        &&& self.classes == pre.classes
        &&& self.instances@.len() == pre.instances@.len() + 1
        &&& self.instances@.drop_last() == pre.instances@
        &&& self.instances@.last().class == class
        &&& self.instances@.last().fields@ == Map::<Seq<char>, Object>::empty()
    }

    /// The heap is `pre` with the field `name` of the instance `instance`
    /// set to `value`.
    pub open spec fn with_field(&self, pre: &Heap, instance: usize, name: Seq<char>, value: Object)
        -> bool {
        &&& self.ast == pre.ast
        &&& self.environments == pre.environments
        &&& self.classes == pre.classes
        &&& self.instances@.len() == pre.instances@.len()
        &&& forall|j: int|
            0 <= j < self.instances@.len() && j != instance ==> #[trigger] self.instances@[j]
                == pre.instances@[j]
        &&& self.instances@[instance as int].class == pre.instances@[instance as int].class
        &&& self.instances@[instance as int].fields@ == pre.instances@[instance as int].fields@
            .insert(name, value)
    }

    /// The environment that binding a method to `instance` makes: it binds
    /// `this`, inside the method's closure.
    pub open spec fn with_binding_environment(
        &self,
        pre: &Heap,
        method: LoxCallable,
        instance: Object,
    ) -> bool {
        method matches LoxCallable::User { closure, .. } && self.with_new_environment(
            pre,
            Some(closure),
            Map::<Seq<char>, Object>::empty().insert("this"@, instance),
        )
    }

    /// What a well-formed heap says of one class.
    pub proof fn lemma_class(&self, class: int)
        requires
            self.wf(),
            0 <= class < self.classes@.len(),
        ensures
            self.class_wf(class),
    {
        reveal(Heap::wf);
    }

    /// What a well-formed heap says of one instance.
    pub proof fn lemma_instance(&self, instance: int)
        requires
            self.wf(),
            0 <= instance < self.instances@.len(),
        ensures
            self.instance_wf(instance),
    {
        reveal(Heap::wf);
    }

    /// A method that a class of a well-formed heap has is a function of the
    /// program and names only what exists.
    pub proof fn lemma_method(&self, class: usize, name: Seq<char>)
        requires
            self.wf(),
        ensures
            self.method(class, name) matches Some(m) ==> m is User && self.holds_callable(m),
        decreases class,
    {
        if class < self.classes@.len() {
            self.lemma_class(class as int);
            if !self.classes@[class as int].methods@.contains_key(name) {
                if let Some(parent) = self.classes@[class as int].superclass {
                    self.lemma_method(parent, name);
                }
            }
        }
    }
}

impl LoxCallable {
    /// The method with `this` bound to `instance`: the same function, closed
    /// over a new environment that binds `this` and lies inside the
    /// method's own closure.
    pub fn bind(&self, heap: &mut Heap, instance: Object) -> (r: LoxCallable)
        requires
            old(heap).wf(),
            *self is User,
            old(heap).holds_callable(*self),
            old(heap).holds(instance),
        ensures
            final(heap).wf(),
            final(heap).with_binding_environment(old(heap), *self, instance),
            r == self.with_closure(old(heap).environments@.len() as usize),
            final(heap).holds_callable(r),
            old(heap).rooted() ==> final(heap).rooted(),
    {
        match self {
            LoxCallable::User { name, params, body, closure, is_initializer } => {
                let environment: usize = Environment::new(heap, Some(*closure));
                Environment::define(heap, environment, String::from_str("this"), instance);
                proof {
                    assert(heap.environments@.drop_last() =~= old(heap).environments@);
                }
                LoxCallable::User {
                    name: *name,
                    params: *params,
                    body: *body,
                    closure: environment,
                    is_initializer: *is_initializer,
                }
            },
            LoxCallable::Native { arity, function } => *self,
        }
    }
}

impl LoxClass {
    /// Makes a class and says where it stands.
    pub fn new(
        heap: &mut Heap,
        name: String,
        superclass: Option<usize>,
        methods: Dict<LoxCallable>,
    ) -> (id: usize)
        requires
            old(heap).wf(),
            superclass matches Some(parent) ==> parent < old(heap).classes@.len(),
            methods.wf(),
            forall|k: Seq<char>|
                methods@.contains_key(k) ==> old(heap).holds_callable(#[trigger] methods@[k])
                    && methods@[k] is User,
        ensures
            final(heap).wf(),
            final(heap).with_new_class(old(heap), name@, superclass, methods@),
            id == old(heap).classes@.len(),
            old(heap).rooted() ==> final(heap).rooted(),
    {
        let id: usize = heap.classes.len();
        heap.classes.push(LoxClass { name, superclass, methods });
        proof {
            reveal(Heap::wf);
            assert(heap.classes@.drop_last() =~= old(heap).classes@);
            assert forall|i: int| 0 <= i < heap.environments@.len() implies #[trigger] heap
                .environment_wf(i) by {
                assert(old(heap).environment_wf(i));
            }
            assert forall|i: int| 0 <= i < heap.classes@.len() implies #[trigger] heap.class_wf(
                i,
            ) by {
                if i < id {
                    assert(old(heap).class_wf(i));
                    assert(heap.classes@[i] == old(heap).classes@[i]);
                }
            }
            assert forall|i: int| 0 <= i < heap.instances@.len() implies #[trigger] heap
                .instance_wf(i) by {
                assert(old(heap).instance_wf(i));
            }
        }
        id
    }

    /// The method `name` of the class `class`: its own, or else that of the
    /// nearest superclass that has one.
    pub fn find_method(heap: &Heap, class: usize, name: &String) -> (r: Option<LoxCallable>)
        requires
            heap.wf(),
            class < heap.classes@.len(),
        ensures
            r == heap.method(class, name@),
            r matches Some(m) ==> m is User && heap.holds_callable(m),
    {
        proof {
            heap.lemma_method(class, name@);
        }
        let mut current: usize = class;
        loop
            invariant
                heap.wf(),
                current < heap.classes@.len(),
                heap.method(current, name@) == heap.method(class, name@),
            decreases current,
        {
            proof {
                heap.lemma_class(current as int);
            }
            match heap.classes[current].methods.get(name) {
                Some(method) => {
                    return Some(*method);
                },
                None => {},
            }
            match heap.classes[current].superclass {
                Some(parent) => {
                    current = parent;
                },
                None => {
                    return None;
                },
            }
        }
    }
}

impl LoxInstance {
    /// Makes an instance of the class `class`, without fields, and says
    /// where it stands.
    pub fn new(heap: &mut Heap, class: usize) -> (id: usize)
        requires
            old(heap).wf(),
            class < old(heap).classes@.len(),
        ensures
            final(heap).wf(),
            final(heap).with_new_instance(old(heap), class),
            id == old(heap).instances@.len(),
            old(heap).rooted() ==> final(heap).rooted(),
    {
        let id: usize = heap.instances.len();
        heap.instances.push(LoxInstance { class, fields: Dict::new() });
        proof {
            reveal(Heap::wf);
            assert(heap.instances@.drop_last() =~= old(heap).instances@);
            assert forall|i: int| 0 <= i < heap.environments@.len() implies #[trigger] heap
                .environment_wf(i) by {
                assert(old(heap).environment_wf(i));
            }
            assert forall|i: int| 0 <= i < heap.classes@.len() implies #[trigger] heap.class_wf(
                i,
            ) by {
                assert(old(heap).class_wf(i));
            }
            assert forall|i: int| 0 <= i < heap.instances@.len() implies #[trigger] heap
                .instance_wf(i) by {
                if i < id {
                    assert(old(heap).instance_wf(i));
                    assert(heap.instances@[i] == old(heap).instances@[i]);
                }
            }
        }
        id
    }

    /// Reads the property named by the token `name`: the field of that name
    /// if the instance has one; else the method of that name of its class,
    /// bound to the instance; else nothing.
    pub fn get(heap: &mut Heap, instance: usize, name: usize) -> (r: Result<Object, RuntimeError>)
        requires
            old(heap).wf(),
            instance < old(heap).instances@.len(),
            name < old(heap).ast.tokens@.len(),
        ensures
            final(heap).wf(),
            final(heap).grown_from(old(heap)),
            old(heap).rooted() ==> final(heap).rooted(),
            r matches Ok(value) ==> final(heap).holds(value),
            ({
                let text = old(heap).ast.text(name);
                let object = old(heap).instances@[instance as int];
                if object.fields@.contains_key(text) {
                    r == Ok::<Object, RuntimeError>(object.fields@[text]) && *final(heap) == *old(
                        heap,
                    )
                } else {
                    match old(heap).method(object.class, text) {
                        Some(method) => r == Ok::<Object, RuntimeError>(
                            Object::Callable(
                                method.with_closure(old(heap).environments@.len() as usize),
                            ),
                        ) && final(heap).with_binding_environment(
                            old(heap),
                            method,
                            Object::Instance(instance),
                        ),
                        None => r == Err::<Object, RuntimeError>(
                            RuntimeError { kind: RuntimeErrorKind::UndefinedProperty, token: name },
                        ) && *final(heap) == *old(heap),
                    }
                }
            }),
    {
        proof {
            heap.lemma_instance(instance as int);
        }
        let text: &String = &heap.ast.tokens[name].lexeme;
        match heap.instances[instance].fields.get(text) {
            Some(field) => {
                return Ok(field.clone());
            },
            None => {},
        }
        let class: usize = heap.instances[instance].class;
        match LoxClass::find_method(heap, class, text) {
            Some(method) => Ok(Object::Callable(method.bind(heap, Object::Instance(instance)))),
            None => Err(RuntimeError { kind: RuntimeErrorKind::UndefinedProperty, token: name }),
        }
    }

    /// Sets the field named by the token `name`, whether or not the
    /// instance had it.
    pub fn set(heap: &mut Heap, instance: usize, name: usize, value: Object)
        requires
            old(heap).wf(),
            instance < old(heap).instances@.len(),
            name < old(heap).ast.tokens@.len(),
            old(heap).holds(value),
        ensures
            final(heap).wf(),
            final(heap).with_field(old(heap), instance, old(heap).ast.text(name), value),
            old(heap).rooted() ==> final(heap).rooted(),
    {
        proof {
            reveal(Heap::wf);
            assert(heap.instance_wf(instance as int));
        }
        let text: String = heap.ast.tokens[name].lexeme.clone();
        heap.instances[instance].fields.insert(text, value);
        proof {
            assert forall|i: int| 0 <= i < heap.environments@.len() implies #[trigger] heap
                .environment_wf(i) by {
                assert(old(heap).environment_wf(i));
            }
            assert forall|i: int| 0 <= i < heap.classes@.len() implies #[trigger] heap.class_wf(
                i,
            ) by {
                assert(old(heap).class_wf(i));
            }
            assert forall|i: int| 0 <= i < heap.instances@.len() implies #[trigger] heap
                .instance_wf(i) by {
                assert(old(heap).instance_wf(i));
            }
        }
    }
}

} // verus!
