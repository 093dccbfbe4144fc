use crate::ast::Ast;
use crate::callable::LoxCallable;
use crate::class::{LoxClass, LoxInstance};
use crate::environment::Environment;
use crate::object::Object;
use vstd::prelude::*;

verus! {

/// All that outlives a statement: the syntax tree, and the environments,
/// classes and instances made so far. Each is named by its index, which
/// never changes; nothing is ever taken away.
pub struct Heap {
    pub ast: Ast,
    pub environments: Vec<Environment>,
    pub classes: Vec<LoxClass>,
    pub instances: Vec<LoxInstance>,
}

impl Heap {
    /// The callable names only what exists.
    pub open spec fn holds_callable(&self, c: LoxCallable) -> bool {
        c.fits(
            self.ast.tokens@.len() as int,
            self.ast.stmts@.len() as int,
            self.ast.lists@,
            self.environments@.len() as int,
        )
    }

    /// The value names only what exists.
    pub open spec fn holds(&self, o: Object) -> bool {
        match o {
            Object::Callable(c) => self.holds_callable(c),
            Object::Class(c) => c < self.classes@.len(),
            Object::Instance(i) => i < self.instances@.len(),
            _ => true,
        }
    }

    /// An environment encloses only later ones, and binds only values that
    /// name what exists.
    pub open spec fn environment_wf(&self, i: int) -> bool {
        let e = self.environments@[i];
        &&& e.values.wf()
        &&& (e.enclosing matches Some(p) ==> p < i)
        &&& forall|k: Seq<char>|
            e.values@.contains_key(k) ==> self.holds(#[trigger] e.values@[k])
    }

    /// A class inherits only from an earlier one.
    pub open spec fn class_wf(&self, i: int) -> bool {
        let c = self.classes@[i];
        &&& c.methods.wf()
        &&& (c.superclass matches Some(p) ==> p < i)
        &&& forall|k: Seq<char>|
            c.methods@.contains_key(k) ==> self.holds_callable(#[trigger] c.methods@[k])
                && c.methods@[k] is User
    }

    /// An instance is of a class that exists, and its fields hold only values
    /// that name what exists.
    pub open spec fn instance_wf(&self, i: int) -> bool {
        let o = self.instances@[i];
        &&& o.fields.wf()
        &&& o.class < self.classes@.len()
        &&& forall|k: Seq<char>| o.fields@.contains_key(k) ==> self.holds(#[trigger] o.fields@[k])
    }

    /// The tree is well formed; enclosing environments and superclasses lie
    /// before what refers to them, so that no chain runs in a circle; and
    /// every value kept anywhere names only what exists.
    #[verifier::opaque]
    pub open spec fn wf(&self) -> bool {
        &&& self.ast.wf()
        &&& forall|i: int| 0 <= i < self.environments@.len() ==> #[trigger] self.environment_wf(i)
        &&& forall|i: int| 0 <= i < self.classes@.len() ==> #[trigger] self.class_wf(i)
        &&& forall|i: int| 0 <= i < self.instances@.len() ==> #[trigger] self.instance_wf(i)
    }

    /// Every environment but the first lies inside another: with
    /// `environment_wf`, every chain of enclosing environments ends at the
    /// first environment, the global one.
    pub open spec fn rooted(&self) -> bool {
        forall|i: int|
            0 < i < self.environments@.len() ==> (#[trigger] self.environments@[i]).enclosing
                is Some
    }

    /// The heap holds all that `earlier` held: as many environments, classes
    /// and instances or more, over a tree that extends the earlier one. What
    /// named something that existed then still does.
    pub open spec fn grown_from(&self, earlier: &Heap) -> bool {
        &&& self.ast.extends(&earlier.ast)
        &&& self.environments@.len() >= earlier.environments@.len()
        &&& self.classes@.len() >= earlier.classes@.len()
        &&& self.instances@.len() >= earlier.instances@.len()
    }

    /// Growth keeps callables valid.
    pub proof fn lemma_grown_callable(&self, earlier: &Heap, c: LoxCallable)
        requires
            self.grown_from(earlier),
            earlier.holds_callable(c),
        ensures
            self.holds_callable(c),
    {
        match c {
            LoxCallable::Native { .. } => {},
            LoxCallable::User { name, params, body, closure, is_initializer } => {
                assert forall|i: int| params.start <= i < params.start + params.len implies (
                #[trigger] self.ast.lists@[i]) < self.ast.tokens@.len() by {
                    assert(self.ast.lists@[i] == earlier.ast.lists@[i]);
                }
                assert forall|i: int| body.start <= i < body.start + body.len implies (
                #[trigger] self.ast.lists@[i]) < self.ast.stmts@.len() by {
                    assert(self.ast.lists@[i] == earlier.ast.lists@[i]);
                }
            },
        }
    }

    /// Growth keeps values valid.
    pub proof fn lemma_grown_holds(&self, earlier: &Heap, o: Object)
        requires
            self.grown_from(earlier),
            earlier.holds(o),
        ensures
            self.holds(o),
    {
        if let Object::Callable(c) = o {
            self.lemma_grown_callable(earlier, c);
        }
    }

    /// The tree of a well-formed heap is well formed.
    pub proof fn lemma_ast(&self)
        requires
            self.wf(),
        ensures
            self.ast.wf(),
    {
        reveal(Heap::wf);
    }

    /// A heap stays well formed when its tree is extended.
    pub proof fn lemma_grown_wf(&self, earlier: &Heap)
        requires
            earlier.wf(),
            self.ast.wf(),
            self.ast.extends(&earlier.ast),
            self.environments == earlier.environments,
            self.classes == earlier.classes,
            self.instances == earlier.instances,
        ensures
            self.wf(),
            self.grown_from(earlier),
    {
        reveal(Heap::wf);
        assert forall|i: int| 0 <= i < self.environments@.len() implies #[trigger] self
            .environment_wf(i) by {
            assert(earlier.environment_wf(i));
            let e = self.environments@[i];
            assert forall|k: Seq<char>| e.values@.contains_key(k) implies self.holds(
                #[trigger] e.values@[k],
            ) by {
                self.lemma_grown_holds(earlier, e.values@[k]);
            }
        }
        assert forall|i: int| 0 <= i < self.classes@.len() implies #[trigger] self.class_wf(
            i,
        ) by {
            assert(earlier.class_wf(i));
            let c = self.classes@[i];
            assert forall|k: Seq<char>| c.methods@.contains_key(k) implies self.holds_callable(
                #[trigger] c.methods@[k],
            ) && c.methods@[k] is User by {
                self.lemma_grown_callable(earlier, c.methods@[k]);
            }
        }
        assert forall|i: int| 0 <= i < self.instances@.len() implies #[trigger] self.instance_wf(
            i,
        ) by {
            assert(earlier.instance_wf(i));
            let o = self.instances@[i];
            assert forall|k: Seq<char>| o.fields@.contains_key(k) implies self.holds(
                #[trigger] o.fields@[k],
            ) by {
                self.lemma_grown_holds(earlier, o.fields@[k]);
            }
        }
    }

    /// Puts a tree in place of the heap's own, which it extends.
    pub fn replace_ast(&mut self, ast: Ast)
        requires
            old(self).wf(),
            ast.wf(),
            ast.extends(&old(self).ast),
        ensures
            final(self).wf(),
            final(self).grown_from(old(self)),
            old(self).rooted() ==> final(self).rooted(),
            final(self).ast == ast,
            final(self).environments == old(self).environments,
            final(self).classes == old(self).classes,
            final(self).instances == old(self).instances,
    {
        self.ast = ast;
        proof {
            self.lemma_grown_wf(old(self));
        }
    }

    /// Appends a list of statements to the tree's list table.
    pub fn add_program(&mut self, statements: &mut Vec<usize>) -> (span: crate::expr::Span)
        requires
            old(self).wf(),
            forall|i: int|
                0 <= i < old(statements)@.len() ==> #[trigger] old(statements)@[i] < old(
                    self,
                ).ast.stmts@.len(),
        ensures
            final(self).wf(),
            final(self).grown_from(old(self)),
            final(self).ast.lists@ == old(self).ast.lists@ + old(statements)@,
            final(self).ast.tokens == old(self).ast.tokens,
            final(self).ast.exprs == old(self).ast.exprs,
            final(self).ast.stmts == old(self).ast.stmts,
            final(self).environments == old(self).environments,
            final(self).classes == old(self).classes,
            final(self).instances == old(self).instances,
            span.start == old(self).ast.lists@.len(),
            span.len == old(statements)@.len(),
            crate::ast::span_below(
                final(self).ast.lists@,
                span,
                final(self).ast.stmts@.len() as int,
            ),
    {
        proof {
            reveal(Heap::wf);
        }
        let ghost bound = self.ast.stmts@.len() as int;
        let span = self.ast.add_list(statements, Ghost(bound));
        proof {
            self.lemma_grown_wf(old(self));
        }
        span
    }

    /// A heap over an empty tree, with nothing in it.
    pub fn new() -> (r: Heap)
        ensures
            r.wf(),
            r.environments@.len() == 0,
            r.classes@.len() == 0,
            r.instances@.len() == 0,
            r.ast.tokens@.len() == 0,
            r.ast.exprs@.len() == 0,
            r.ast.stmts@.len() == 0,
    {
        reveal(Heap::wf);
        Heap {
            ast: Ast::new(),
            environments: Vec::new(),
            classes: Vec::new(),
            instances: Vec::new(),
        }
    }
}

} // verus!
