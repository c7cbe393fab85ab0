use crate::interpreter::{RuntimeError, undefined_message};
use crate::token::{Literal, Token, Value};
use vstd::prelude::*;

verus! {

/// The bindings of one scope, in the order in which they were made.
pub type Scope = Seq<(Seq<char>, Value)>;

/// Where `name` is bound in a scope: its last binding there.
pub open spec fn scope_find(s: Scope, name: Seq<char>) -> Option<int>
    decreases s.len(),
{
    if s.len() == 0 {
        None
    } else if s.last().0 == name {
        Some(s.len() - 1)
    } else {
        scope_find(s.drop_last(), name)
    }
}

/// A scope after `name` is defined as `v`: an existing binding is replaced.
pub open spec fn scope_define(s: Scope, name: Seq<char>, v: Value) -> Scope {
    match scope_find(s, name) {
        Some(i) => s.update(i, (name, v)),
        None => s.push((name, v)),
    }
}

/// The value of `name` in a chain of scopes, innermost last.
pub open spec fn env_lookup(env: Seq<Scope>, name: Seq<char>) -> Option<Value>
    decreases env.len(),
{
    if env.len() == 0 {
        None
    } else {
        match scope_find(env.last(), name) {
            Some(i) => Some(env.last()[i].1),
            None => env_lookup(env.drop_last(), name),
        }
    }
}

/// The chain after `name` is assigned `v` in the innermost scope that binds
/// it; `None` where no scope does.
pub open spec fn env_assign(env: Seq<Scope>, name: Seq<char>, v: Value) -> Option<Seq<Scope>>
    decreases env.len(),
{
    if env.len() == 0 {
        None
    } else {
        match scope_find(env.last(), name) {
            Some(i) => Some(env.update(env.len() - 1, env.last().update(i, (name, v)))),
            None => match env_assign(env.drop_last(), name, v) {
                Some(e) => Some(e.push(env.last())),
                None => None,
            },
        }
    }
}

/// The chain after `name` is defined as `v` in the innermost scope.
pub open spec fn env_define(env: Seq<Scope>, name: Seq<char>, v: Value) -> Seq<Scope> {
    env.update(env.len() - 1, scope_define(env.last(), name, v))
}

pub open spec fn bindings_view(b: Seq<(String, Literal)>) -> Scope {
    b.map_values(|p: (String, Literal)| (p.0@, p.1@))
}

/// A scope of variable bindings, with the scope that encloses it.
pub struct Environment {
    pub enclosing: Option<Box<Environment>>,
    pub values: Vec<(String, Literal)>,
}

impl Environment {
    /// The chain of scopes, outermost first.
    pub open spec fn scopes(&self) -> Seq<Scope>
        decreases self,
    {
        let own = bindings_view(self.values@);
        match self.enclosing {
            Some(e) => e.scopes().push(own),
            None => seq![own],
        }
    }

    /// An empty scope inside `enclosing`, or a global scope.
    pub fn new(enclosing: Option<Box<Environment>>) -> (r: Self)
        ensures
            r.scopes() == match enclosing {
                Some(e) => e.scopes().push(Seq::empty()),
                None => seq![Seq::<(Seq<char>, Value)>::empty()],
            },
    {
        let r = Environment { enclosing, values: Vec::new() };
        proof {
            assert(bindings_view(r.values@) =~= Seq::empty());
        }
        r
    }

    /// Where `name` is bound in this scope itself.
    fn find(&self, name: &String) -> (r: Option<usize>)
        ensures
            r matches Some(i) ==> i < self.values@.len() && scope_find(
                bindings_view(self.values@),
                name@,
            ) == Some(i as int),
            r is None ==> scope_find(bindings_view(self.values@), name@) is None,
    {
        let ghost s = bindings_view(self.values@);
        let mut i = self.values.len();
        assert(s.subrange(0, i as int) =~= s);
        while i > 0
            invariant
                i <= self.values@.len(),
                s == bindings_view(self.values@),
                scope_find(s, name@) == scope_find(s.subrange(0, i as int), name@),
            decreases i,
        {
            let ghost t = s.subrange(0, i as int);
            if self.values[i - 1].0 == *name {
                return Some(i - 1);
            }
            assert(t.drop_last() =~= s.subrange(0, i - 1));
            i = i - 1;
        }
        assert(s.subrange(0, 0) =~= Seq::<(Seq<char>, Value)>::empty());
        None
    }

    /// Binds `name` to `value` in this scope, replacing a binding of the
    /// same name here.
    pub fn define(&mut self, name: String, value: Literal)
        ensures
            final(self).scopes() == env_define(old(self).scopes(), name@, value@),
            final(self).enclosing == old(self).enclosing,
    {
        let ghost s = bindings_view(self.values@);
        match self.find(&name) {
            Some(i) => {
                self.values.set(i, (name, value));
                proof {
                    assert(bindings_view(self.values@) =~= s.update(i as int, (name@, value@)));
                }
            },
            None => {
                self.values.push((name, value));
                proof {
                    assert(bindings_view(self.values@) =~= s.push((name@, value@)));
                }
            },
        }
        proof {
            lemma_scopes_last(&*old(self));
            lemma_scopes_last(&*self);
            assert(self.scopes() =~= env_define(old(self).scopes(), name@, value@));
        }
    }

    /// The value bound to the token's lexeme in the nearest scope that binds
    /// it; an undefined-variable error where none does.
    pub fn get(&self, name: Token) -> (r: Result<Literal, RuntimeError>)
        ensures
            match env_lookup(self.scopes(), name.lexeme@) {
                Some(v) => r matches Ok(l) && l@ == v,
                None => r matches Err(e) && e.0@ == name@ && e.1@ == undefined_message(
                    name.lexeme@,
                ),
            },
        decreases self,
    {
        proof {
            lemma_scopes_last(self);
        }
        match self.find(&name.lexeme) {
            Some(i) => {
                assert(bindings_view(self.values@)[i as int] == (
                    self.values@[i as int].0@,
                    self.values@[i as int].1@,
                ));
                Ok(self.values[i].1.duplicate())
            },
            None => match &self.enclosing {
                Some(e) => e.get(name),
                None => {
                    assert(env_lookup(Seq::<Scope>::empty(), name.lexeme@) is None);
                    let message = undefined_message_of(&name.lexeme);
                    Err(RuntimeError(name, message))
                },
            },
        }
    }

    /// Gives `value` to the binding of the token's lexeme in the nearest scope
    /// that binds it; an undefined-variable error, and no change, where none
    /// does.
    pub fn assign(&mut self, name: Token, value: Literal) -> (r: Result<(), RuntimeError>)
        ensures
            match env_assign(old(self).scopes(), name.lexeme@, value@) {
                Some(env) => r is Ok && final(self).scopes() == env,
                None => r matches Err(e) && e.0@ == name@ && e.1@ == undefined_message(
                    name.lexeme@,
                ) && final(self).scopes() == old(self).scopes(),
            },
        decreases old(self).scopes().len(),
    {
        proof {
            lemma_scopes_last(&*self);
        }
        let ghost s = bindings_view(self.values@);
        match self.find(&name.lexeme) {
            Some(i) => {
                let key = name.lexeme;
                self.values.set(i, (key, value));
                proof {
                    assert(bindings_view(self.values@) =~= s.update(i as int, (name.lexeme@, value@)));
                    lemma_scopes_last(&*self);
                    assert(self.scopes() =~= old(self).scopes().update(
                        old(self).scopes().len() - 1,
                        s.update(i as int, (name.lexeme@, value@)),
                    ));
                }
                Ok(())
            },
            None => match &mut self.enclosing {
                Some(e) => {
                    let r = e.assign(name, value);
                    proof {
                        lemma_scopes_last(&*self);
                        match env_assign(old(self).scopes().drop_last(), name.lexeme@, value@) {
                            Some(env) => {
                                assert(self.scopes() =~= env.push(s));
                            },
                            None => {},
                        }
                    }
                    r
                },
                None => {
                    assert(env_assign(Seq::<Scope>::empty(), name.lexeme@, value@) is None);
                    let message = undefined_message_of(&name.lexeme);
                    Err(RuntimeError(name, message))
                },
            },
        }
    }
}

/// The chain of scopes ends with this scope's own bindings, after those of
/// the enclosing chain.
pub proof fn lemma_scopes_last(env: &Environment)
    ensures
        env.scopes().len() >= 1,
        env.scopes().last() == bindings_view(env.values@),
        env.scopes().drop_last() == match env.enclosing {
            Some(e) => e.scopes(),
            None => Seq::<Scope>::empty(),
        },
{
    match env.enclosing {
        Some(e) => {
            assert(env.scopes().drop_last() =~= e.scopes());
        },
        None => {
            assert(env.scopes().drop_last() =~= Seq::<Scope>::empty());
        },
    }
}

/// The message of an undefined-variable error.
fn undefined_message_of(name: &String) -> (r: String)
    ensures
        r@ == undefined_message(name@),
{
    let mut m = "Undefined variable ".to_owned();
    m.append(name.as_str());
    m
}

} // verus!
