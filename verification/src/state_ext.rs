use vstd::prelude::*;
use crate::state::SubscriptionHolder;

verus! {

/// What a widget keeps alive for the reactive system. Both kinds of data
/// live in one slot of the widget: attaching a state holder replaces the
/// subscriptions kept there, and subscriptions can only be added to a slot
/// that holds no state holder.
pub trait StateHolderExt<H, S> {
    /// Whether the slot holds no state holder, so a subscription can be added.
    spec fn accepts_subscription(&self) -> bool;

    /// Keeps `holder` (the states made for this widget) alive with the
    /// widget, in place of what the slot held.
    fn attach_state_holder(&mut self, holder: H);

    /// Keeps `subscription` alive with the widget.
    fn attach_subscription(&mut self, subscription: S)
        requires
            old(self).accepts_subscription(),
    ;
}

/// What the slot of a widget holds.
pub enum WidgetSlot<H, S> {
    StateHolder(H),
    Subscriptions(SubscriptionHolder<S>),
}

/// The data a widget carries: one slot, empty, holding its state holder, or
/// holding its subscriptions (made on the first one).
pub struct WidgetData<H, S> {
    slot: Option<WidgetSlot<H, S>>,
}

impl<H, S> WidgetData<H, S> {
    /// The state holder in the slot, if it holds one.
    pub closed spec fn state_holder(&self) -> Option<H> {
        match self.slot {
            Some(WidgetSlot::StateHolder(h)) => Some(h),
            _ => None,
        }
    }

    /// The subscriptions in the slot, if it holds them.
    pub closed spec fn subscriptions(&self) -> Option<Seq<S>> {
        match self.slot {
            Some(WidgetSlot::Subscriptions(h)) => Some(h.subscriptions()),
            _ => None,
        }
    }

    pub fn new() -> (d: Self)
        ensures
            d.state_holder() is None,
            d.subscriptions() is None,
    {
        WidgetData { slot: None }
    }

    /// Whether a subscription can be added: the slot holds no state holder.
    pub fn can_attach_subscription(&self) -> (b: bool)
        ensures
            b == self.state_holder() is None,
    {
        match &self.slot {
            Some(WidgetSlot::StateHolder(_)) => false,
            _ => true,
        }
    }
}

impl<H, S> StateHolderExt<H, S> for WidgetData<H, S> {
    open spec fn accepts_subscription(&self) -> bool {
        self.state_holder() is None
    }

    /// Replaces what the slot held: a holder attached before, or the
    /// subscriptions, which end with it.
    fn attach_state_holder(&mut self, holder: H)
        ensures
            final(self).state_holder() == Some(holder),
            final(self).subscriptions() is None,
    {
        self.slot = Some(WidgetSlot::StateHolder(holder));
    }

    fn attach_subscription(&mut self, subscription: S)
        ensures
            final(self).state_holder() is None,
            final(self).subscriptions() == Some(
                match old(self).subscriptions() {
                    Some(s) => s.push(subscription),
                    None => seq![subscription],
                },
            ),
    {
        let mut current: Option<WidgetSlot<H, S>> = None;
        std::mem::swap(&mut current, &mut self.slot);
        let mut holder = match current {
            Some(WidgetSlot::Subscriptions(h)) => h,
            _ => SubscriptionHolder::new(),
        };
        holder.attach_subscription(subscription);
        self.slot = Some(WidgetSlot::Subscriptions(holder));
        proof {
            match old(self).subscriptions() {
                Some(s) => {},
                None => {
                    assert(seq![subscription] =~= Seq::<S>::empty().push(subscription));
                },
            }
        }
    }
}

} // verus!
