//! Work that the render path asks for and the update cycle carries out.
use vstd::prelude::*;

verus! {

/// A request queued by the render path, named by the locator it is for.
pub enum Request {
    /// The content is not on disk yet: download it.
    Fetch(String),
    /// The content is on disk: read and decode it into memory.
    Load(String),
}

/// The mathematical form of a [`Request`].
pub ghost enum Need {
    Fetch(Seq<char>),
    Load(Seq<char>),
}

impl View for Request {
    type V = Need;

    open spec fn view(&self) -> Need {
        match self {
            Request::Fetch(k) => Need::Fetch(k@),
            Request::Load(k) => Need::Load(k@),
        }
    }
}

/// The queue between the render path, which only adds to it, and the update
/// cycle, which takes its requests out in batches.
pub struct Pending {
    queue: Vec<Request>,
}

impl View for Pending {
    type V = Seq<Need>;

    closed spec fn view(&self) -> Seq<Need> {
        self.queue@.map_values(|r: Request| r@)
    }
}

impl Pending {
    /// An empty queue.
    pub fn new() -> (r: Pending)
        ensures
            r@ == Seq::<Need>::empty(),
    {
        let r = Pending { queue: Vec::new() };
        assert(r@ =~= Seq::<Need>::empty());
        r
    }

    /// Queues `request` behind those already waiting.
    pub fn notify(&mut self, request: Request)
        ensures
            final(self)@ == old(self)@.push(request@),
    {
        self.queue.push(request);
        assert(self@ =~= old(self)@.push(request@));
    }

    /// The number of waiting requests.
    pub fn len(&self) -> (r: usize)
        ensures
            r == self@.len(),
    {
        self.queue.len()
    }

    /// Takes out the `max` oldest requests (all of them where fewer wait),
    /// oldest first; the rest stay queued in their order.
    pub fn drain(&mut self, max: usize) -> (r: Vec<Request>)
        ensures
            r@.len() == if old(self)@.len() <= max { old(self)@.len() as int } else { max as int },
            r@.map_values(|q: Request| q@) == old(self)@.take(r@.len() as int),
            final(self)@ == old(self)@.skip(r@.len() as int),
    {
        let n = self.queue.len();
        let cut = if n <= max {
            n
        } else {
            max
        };
        let mut rest = self.queue.split_off(cut);
        std::mem::swap(&mut self.queue, &mut rest);
        assert(rest@.map_values(|q: Request| q@) =~= old(self)@.take(cut as int));
        assert(self@ =~= old(self)@.skip(cut as int));
        rest
    }
}

} // verus!
