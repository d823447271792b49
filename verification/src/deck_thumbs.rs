//! Pictures of windows: which are asked for, and which of the captures that come
//! back are whole.
use vstd::prelude::*;
use crate::apps::ICON_BYTES;
use crate::text;

verus! {

/// A capture that is asked for: a set of windows, and the shape in which their
/// pictures will be drawn, as the bits of its ratio.
#[derive(Debug)]
pub struct Request {
    pub addrs: Vec<String>,
    pub aspect: u32,
}

/// A finished picture.
#[derive(Debug)]
pub struct Event {
    pub addr: String,
    pub pixels: Vec<u8>,
}

/// The captures that are asked for, first come first served.
#[derive(Debug)]
pub struct DeckThumbs {
    pub queue: Vec<Request>,
    /// Whether anyone takes them.
    pub connected: bool,
}

impl DeckThumbs {
    /// Nothing is asked for yet.
    pub fn new() -> (r: Self)
        ensures
            r.queue@.len() == 0,
            r.connected,
    {
        DeckThumbs { queue: Vec::new(), connected: true }
    }

    /// Ask for a picture of one window. Nothing happens where nobody takes the
    /// request.
    pub fn request(&mut self, addr: String, aspect: u32)
        ensures
            final(self).connected == old(self).connected,
            if old(self).connected {
                &&& final(self).queue@.len() == old(self).queue@.len() + 1
                &&& final(self).queue@.take(old(self).queue@.len() as int) == old(self).queue@
                &&& final(self).queue@.last().addrs@ == seq![addr]
                &&& final(self).queue@.last().aspect == aspect
            } else {
                final(self).queue == old(self).queue
            },
    {
        let mut addrs: Vec<String> = Vec::new();
        addrs.push(addr);
        assert(addrs@ == seq![addr]);
        self.request_many(addrs, aspect);
    }

    /// Ask for pictures of a set of windows, in one pass. An empty set asks for
    /// nothing.
    pub fn request_many(&mut self, addrs: Vec<String>, aspect: u32)
        ensures
            final(self).connected == old(self).connected,
            if old(self).connected && addrs@.len() > 0 {
                &&& final(self).queue@.len() == old(self).queue@.len() + 1
                &&& final(self).queue@.take(old(self).queue@.len() as int) == old(self).queue@
                &&& final(self).queue@.last().addrs == addrs
                &&& final(self).queue@.last().aspect == aspect
            } else {
                final(self).queue == old(self).queue
            },
    {
        if addrs.len() == 0 || !self.connected {
            return;
        }
        self.queue.push(Request { addrs, aspect });
        assert(self.queue@.take(old(self).queue@.len() as int) == old(self).queue@);
    }

    /// Take the request that came first.
    pub fn take(&mut self) -> (r: Option<Request>)
        ensures
            final(self).connected == old(self).connected,
            match r {
                Some(q) => old(self).queue@.len() > 0 && q == old(self).queue@[0]
                    && final(self).queue@ == old(self).queue@.skip(1),
                None => old(self).queue@.len() == 0 && final(self).queue == old(self).queue,
            },
    {
        if self.queue.len() == 0 {
            return None;
        }
        let q = self.queue.remove(0);
        assert(self.queue@ == old(self).queue@.skip(1));
        Some(q)
    }
}

/// The name of the file that a capture of a window is in.
pub fn capture_name(addr: &str) -> (r: String)
    ensures
        r@ == addr@ + ".rgba"@,
{
    text::concat(addr, ".rgba")
}

/// Whether a capture is whole: of exactly the size of a picture.
pub fn is_whole(raw: &[u8]) -> (r: bool)
    ensures
        r == (raw@.len() == ICON_BYTES),
{
    raw.len() == ICON_BYTES
}

/// One channel of a capture made ready for drawing: the dimmed value weighed by
/// the alpha of its pixel.
pub fn premultiplied(dimmed: u8, alpha: u8) -> (r: u8)
    ensures
        r == dimmed * alpha / 255,
{
    assert(0 <= dimmed * alpha <= 255 * 255) by (nonlinear_arith)
        requires
            0 <= dimmed <= 255,
            0 <= alpha <= 255,
    ;
    ((dimmed as u32 * alpha as u32) / 255) as u8
}

} // verus!
