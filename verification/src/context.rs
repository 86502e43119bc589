//! What a handler may do to the world outside its actor.

use vstd::prelude::*;

use crate::message::{Action, Address, ChopstickAction, ChopstickState};

verus! {

/// One thing a handler asks its surroundings to do.
#[derive(Clone, Copy, PartialEq, Eq, Structural, Debug)]
pub enum Effect {
    /// Deliver `command` to the chopstick at `to`.
    ToChopstick { to: Address, command: ChopstickAction },
    /// Deliver `state` to the philosopher at `to`.
    ToPhilosopher { to: Address, state: ChopstickState },
    /// Deliver `action` to the actor itself once `millis` milliseconds have
    /// passed.
    Later { action: Action, millis: u64 },
}

/// The surroundings of one handler call: the address of the actor that is
/// handling a message, and the effects it has asked for so far, oldest first.
#[derive(Debug)]
pub struct Context {
    pub address: Address,
    pub outbox: Vec<Effect>,
}

impl Context {
    /// A context for the actor at `address`, with nothing asked for yet.
    pub fn new(address: Address) -> (ctx: Context)
        ensures
            ctx.address == address,
            ctx.outbox@ == Seq::<Effect>::empty(),
    {
        Context { address, outbox: Vec::new() }
    }

    /// The address of the actor that is handling a message.
    pub fn address(&self) -> (address: Address)
        ensures
            address == self.address,
    {
        self.address
    }

    /// Asks for `action` to be delivered to this actor itself after `millis`
    /// milliseconds.
    pub fn notify_later(&mut self, action: Action, millis: u64)
        ensures
            final(self).address == old(self).address,
            final(self).outbox@ == old(self).outbox@.push(Effect::Later { action, millis }),
    {
        self.outbox.push(Effect::Later { action, millis });
    }

    /// Asks for `command` to be delivered to the chopstick at `to`.
    pub fn send_to_chopstick(&mut self, to: Address, command: ChopstickAction)
        ensures
            final(self).address == old(self).address,
            final(self).outbox@ == old(self).outbox@.push(Effect::ToChopstick { to, command }),
    {
        self.outbox.push(Effect::ToChopstick { to, command });
    }

    /// Asks for `state` to be delivered to the philosopher at `to`.
    pub fn send_to_philosopher(&mut self, to: Address, state: ChopstickState)
        ensures
            final(self).address == old(self).address,
            final(self).outbox@ == old(self).outbox@.push(Effect::ToPhilosopher { to, state }),
    {
        self.outbox.push(Effect::ToPhilosopher { to, state });
    }
}

/// An actor that reacts to messages of type `M`.
///
/// A handler never waits: it updates the actor and records in `ctx` what is
/// to happen next.
pub trait Handler<M> {
    fn handle(&mut self, msg: M, ctx: &mut Context);
}

} // verus!
