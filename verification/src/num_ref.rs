//! Identifiers paired with the context they are meant for.
use crate::registry::Identifier;
use vstd::prelude::*;

verus! {

/// A generic wrapper struct for referencing an identifier with a context.
pub struct BaseRef<Ctx, Id: Identifier> {
    pub id: Id,
    pub ctx: Ctx,
}

impl<Ctx, Id: Identifier> BaseRef<Ctx, Id> {
    pub fn new(ctx: Ctx, id: Id) -> (r: Self)
        ensures
            r.id == id,
            r.ctx == ctx,
    {
        BaseRef { id, ctx }
    }

    pub fn from_id(ctx: Ctx, id: Id) -> (r: Self)
        ensures
            r.id == id,
            r.ctx == ctx,
    {
        BaseRef { id, ctx }
    }
}

/// A mutable reference becomes a shared one with the same identifier and context.
impl<'ctx, Ctx, Id: Identifier> From<BaseRef<&'ctx mut Ctx, Id>> for BaseRef<&'ctx Ctx, Id> {
    fn from(r: BaseRef<&'ctx mut Ctx, Id>) -> (shared: Self)
        ensures
            shared.id == r.id,
            *shared.ctx == *old(r.ctx),
            *final(r.ctx) == *old(r.ctx),
    {
        BaseRef { id: r.id, ctx: r.ctx }
    }
}

impl<'ctx, Ctx, Id: Identifier> vstd::std_specs::convert::FromSpecImpl<BaseRef<&'ctx mut Ctx, Id>> for BaseRef<&'ctx Ctx, Id> {
    open spec fn obeys_from_spec() -> bool {
        true
    }

    open spec fn from_spec(r: BaseRef<&'ctx mut Ctx, Id>) -> Self {
        BaseRef { id: r.id, ctx: &*r.ctx }
    }
}

} // verus!
