use vstd::prelude::*;

verus! {

/// The stack of scopes that new widgets are added to: the innermost scope
/// (the last one entered) receives them.
pub struct Runtime<S> {
    vec: Vec<S>,
}

impl<S> Runtime<S> {
    pub closed spec fn scopes(&self) -> Seq<S> {
        self.vec@
    }

    pub fn new() -> (r: Self)
        ensures
            r.scopes().len() == 0,
    {
        Runtime { vec: Vec::new() }
    }

    /// Makes `scope` the innermost scope.
    pub fn enter_scope(&mut self, scope: S)
        ensures
            final(self).scopes() == old(self).scopes().push(scope),
    {
        self.vec.push(scope);
    }

    /// Leaves the innermost scope, handing it back.
    pub fn exit_scope(&mut self) -> (s: Option<S>)
        ensures
            old(self).scopes().len() == 0 ==> s is None && final(self).scopes() == old(self).scopes(),
            old(self).scopes().len() > 0 ==> s == Some(old(self).scopes().last())
                && final(self).scopes() == old(self).scopes().drop_last(),
    {
        self.vec.pop()
    }

    /// Runs `f` with `scope` as the innermost scope, then leaves it.
    pub fn run_with_scope<F: FnOnce(&Self)>(&mut self, scope: S, f: F)
        requires
            forall|r: Self| r.scopes() == old(self).scopes().push(scope) ==> f.requires((&r,)),
        ensures
            final(self).scopes() == old(self).scopes(),
            exists|r: Self| r.scopes() == old(self).scopes().push(scope) && f.ensures((&r,), ()),
    {
        self.enter_scope(scope);
        f(&*self);
        let _ = self.exit_scope();
    }

    /// The innermost scope, if any.
    pub fn current_scope(&self) -> (s: Option<&S>)
        ensures
            self.scopes().len() == 0 ==> s is None,
            self.scopes().len() > 0 ==> (s matches Some(x) && *x == self.scopes().last()),
    {
        let n = self.vec.len();
        if n == 0 {
            None
        } else {
            Some(&self.vec[n - 1])
        }
    }

    /// Calls `f` with the innermost scope; there must be one.
    pub fn with_current_scope<F: FnOnce(&S) -> R, R>(&self, f: F) -> (r: R)
        requires
            self.scopes().len() > 0,
            f.requires((&self.scopes().last(),)),
        ensures
            f.ensures((&self.scopes().last(),), r),
    {
        let n = self.vec.len();
        f(&self.vec[n - 1])
    }
}

} // verus!
