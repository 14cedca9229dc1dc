//! The boundary to whoever decides when to render.
//!
//! A component is handed a [`Notifier`]. Calling it marks the component as
//! changed and asks for a render pass. The engine never starts a pass itself:
//! the owner of the loop looks whether one was asked for and runs it.

use std::cell::Cell;
use std::rc::Rc;
use vstd::prelude::*;

verus! {

/// `std::cell::Cell`: a value that can be changed through a shared reference.
#[verifier::external_type_specification]
#[verifier::external_body]
#[verifier::reject_recursive_types(T)]
pub struct ExCell<T: ?Sized>(Cell<T>);

/// `Cell::new`: a cell that holds `value` to begin with. Nothing is said of
/// what it holds later: whoever can reach it may change it at any time.
#[verifier::external_body]
pub(crate) fn cell_new(value: bool) -> (cell: Cell<bool>)
{
    Cell::new(value)
}

/// The flag was made holding `value`. What it holds later is another
/// matter: whoever can reach it may change it.
pub closed spec fn made_with(flag: Rc<Cell<bool>>, value: bool) -> bool {
    call_ensures(cell_new, (value,), *flag)
}

/// The flag was looked at and held `value` then.
pub closed spec fn read_as(flag: Rc<Cell<bool>>, value: bool) -> bool {
    call_ensures(flag_get, (&flag,), value)
}

/// The flag was made to hold `value`.
pub closed spec fn set_to(flag: Rc<Cell<bool>>, value: bool) -> bool {
    call_ensures(flag_set, (&flag, value), ())
}

/// A flag that several owners can share, holding `value` to begin with.
pub(crate) fn flag_new(value: bool) -> (flag: Rc<Cell<bool>>)
    ensures
        made_with(flag, value),
{
    Rc::new(cell_new(value))
}

/// What the flag holds now.
pub(crate) fn flag_read(flag: &Rc<Cell<bool>>) -> (value: bool)
    ensures
        read_as(*flag, value),
{
    flag_get(flag)
}

/// Makes the flag hold `value`.
pub(crate) fn flag_write(flag: &Rc<Cell<bool>>, value: bool)
    ensures
        set_to(*flag, value),
{
    flag_set(flag, value)
}

/// `Rc::clone`: another handle on the same flag. It points to the cell that
/// `flag` points to.
#[verifier::external_body]
pub(crate) fn flag_share(flag: &Rc<Cell<bool>>) -> (shared: Rc<Cell<bool>>)
    ensures
        shared == *flag,
{
    Rc::clone(flag)
}

/// `Cell::get`: what the flag holds now.
#[verifier::external_body]
pub(crate) fn flag_get(flag: &Rc<Cell<bool>>) -> (value: bool)
{
    flag.get()
}

/// `Cell::set`: the flag holds `value` until an owner changes it.
#[verifier::external_body]
pub(crate) fn flag_set(flag: &Rc<Cell<bool>>, value: bool)
{
    flag.set(value)
}

/// Asks for a render pass. Asking again before the pass has run changes
/// nothing.
pub struct RenderRequestSender {
    requested: Rc<Cell<bool>>,
}

impl RenderRequestSender {
    /// The flag that the sender raises: the one cell that it shares with the
    /// receiving end and with every sender made from that.
    pub closed spec fn flag(&self) -> Rc<Cell<bool>> {
        self.requested
    }

    /// Asks for a render pass: raises the flag.
    pub fn send(&self)
        ensures
            set_to(self.flag(), true),
    {
        flag_write(&self.requested, true);
    }
}

impl Clone for RenderRequestSender {
    /// Another sender on the same flag.
    fn clone(&self) -> (sender: RenderRequestSender)
        ensures
            sender.flag() == self.flag(),
    {
        RenderRequestSender { requested: flag_share(&self.requested) }
    }
}

/// The receiving end of the requests for a render pass.
pub struct RenderRequest {
    requested: Rc<Cell<bool>>,
}

impl RenderRequest {
    /// The flag that is looked at here: the one cell that the receiving end
    /// shares with its senders.
    pub closed spec fn flag(&self) -> Rc<Cell<bool>> {
        self.requested
    }

    /// A receiving end at which nothing has been asked for: its flag is
    /// made lowered.
    pub fn new() -> (request: RenderRequest)
        ensures
            made_with(request.flag(), false),
    {
        RenderRequest { requested: flag_new(false) }
    }

    /// A sender whose requests arrive here: it raises the flag that is
    /// looked at here.
    pub fn sender(&self) -> (sender: RenderRequestSender)
        ensures
            sender.flag() == self.flag(),
    {
        RenderRequestSender { requested: flag_share(&self.requested) }
    }

    /// Whether a pass was asked for since this was last looked at: what
    /// the flag held, which is lowered again.
    pub fn receive(&self) -> (requested: bool)
        ensures
            read_as(self.flag(), requested),
            set_to(self.flag(), false),
    {
        let requested = flag_read(&self.requested);
        flag_write(&self.requested, false);
        requested
    }
}

/// What a component calls when its state has changed.
pub struct Notifier {
    state_changed: Rc<Cell<bool>>,
    render_req: RenderRequestSender,
}

impl Notifier {
    /// The flag that the notifier raises to mark its component as changed.
    pub closed spec fn marks(&self) -> Rc<Cell<bool>> {
        self.state_changed
    }

    /// The sender through which the notifier asks for a render pass.
    pub closed spec fn asks(&self) -> RenderRequestSender {
        self.render_req
    }

    /// A notifier that marks `state_changed` and asks for a pass through
    /// `render_req`.
    pub fn new(state_changed: &Rc<Cell<bool>>, render_req: RenderRequestSender) -> (notifier: Notifier)
        ensures
            notifier.marks() == *state_changed,
            notifier.asks() == render_req,
    {
        Notifier { state_changed: flag_share(state_changed), render_req }
    }

    /// Marks the component as changed and asks for a render pass: raises
    /// both flags.
    pub fn notify(&self)
        ensures
            set_to(self.marks(), true),
            set_to(self.asks().flag(), true),
    {
        flag_write(&self.state_changed, true);
        self.render_req.send();
    }
}

impl Clone for Notifier {
    /// Another notifier on the same flags.
    fn clone(&self) -> (notifier: Notifier)
        ensures
            notifier.marks() == self.marks(),
            notifier.asks().flag() == self.asks().flag(),
    {
        Notifier { state_changed: flag_share(&self.state_changed), render_req: self.render_req.clone() }
    }
}

} // verus!
