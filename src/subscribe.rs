//! The subscribed mode of a connection: which channels it listens on, the
//! frames that acknowledge changes and deliver messages, and what each
//! client command asks for while subscribed.
use crate::cmd::{
    name_of, strings_view, unknown_message, unknown_text, word_subscribe, word_unsubscribe,
    Command, CommandView,
};
use crate::frame::{Frame, FrameView};
use vstd::prelude::*;
use vstd::slice::slice_to_vec;
use vstd::utf8::*;

verus! {

/// `message`
pub open spec fn word_message() -> Seq<u8> {
    seq![109, 101, 115, 115, 97, 103, 101]
}

/// `[kind, channel, count]`
pub open spec fn ack(kind: Seq<u8>, channel: Seq<char>, n: nat) -> FrameView {
    FrameView::Array(
        seq![
            FrameView::Bulk(kind),
            FrameView::Bulk(encode_utf8(channel)),
            FrameView::Integer(n as u64),
        ],
    )
}

fn make_ack(kind: &[u8], channel: String, num_subs: usize) -> (r: Frame)
    ensures
        r@ == ack(kind@, channel@, num_subs as nat),
{
    let mut response = Frame::array();
    response.push_bulk(slice_to_vec(kind));
    response.push_bulk(slice_to_vec(channel.as_str().as_bytes()));
    response.push_int(num_subs as u64);
    proof {
        assert(response@->Array_0 =~= ack(kind@, channel@, num_subs as nat)->Array_0);
    }
    response
}

/// The reply to subscribing to `channel`, with the number of channels now
/// listened on.
pub fn make_subscribe_frame(channel_name: String, num_subs: usize) -> (r: Frame)
    ensures
        r@ == ack(word_subscribe(), channel_name@, num_subs as nat),
{
    let w: [u8; 9] = [115, 117, 98, 115, 99, 114, 105, 98, 101];
    proof {
        assert(w@ =~= word_subscribe());
    }
    make_ack(&w, channel_name, num_subs)
}

/// The reply to unsubscribing from `channel`, with the number of channels
/// still listened on.
pub fn make_unsubscribe_frame(channel_name: String, num_subs: usize) -> (r: Frame)
    ensures
        r@ == ack(word_unsubscribe(), channel_name@, num_subs as nat),
{
    let w: [u8; 11] = [117, 110, 115, 117, 98, 115, 99, 114, 105, 98, 101];
    proof {
        assert(w@ =~= word_unsubscribe());
    }
    make_ack(&w, channel_name, num_subs)
}

/// A message published on a channel, as delivered to a subscriber.
pub fn make_message_frame(channel_name: String, msg: Vec<u8>) -> (r: Frame)
    ensures
        r@ == FrameView::Array(
            seq![
                FrameView::Bulk(word_message()),
                FrameView::Bulk(encode_utf8(channel_name@)),
                FrameView::Bulk(msg@),
            ],
        ),
{
    let w: [u8; 7] = [109, 101, 115, 115, 97, 103, 101];
    proof {
        assert(w@ =~= word_message());
    }
    let mut response = Frame::array();
    response.push_bulk(slice_to_vec(&w));
    response.push_bulk(slice_to_vec(channel_name.as_str().as_bytes()));
    let ghost m = msg@;
    response.push_bulk(msg);
    proof {
        assert(response@->Array_0 =~= seq![
            FrameView::Bulk(word_message()),
            FrameView::Bulk(encode_utf8(channel_name@)),
            FrameView::Bulk(m),
        ]);
    }
    response
}

pub open spec fn no_duplicates(s: Seq<Seq<char>>) -> bool {
    forall|i: int, j: int| 0 <= i < j < s.len() ==> s[i] != s[j]
}

/// The channels a connection listens on, each once.
pub struct Subscriptions {
    channels: Vec<String>,
}

impl View for Subscriptions {
    type V = Seq<Seq<char>>;

    closed spec fn view(&self) -> Seq<Seq<char>> {
        strings_view(self.channels@)
    }
}

impl Subscriptions {
    pub open spec fn wf(&self) -> bool {
        no_duplicates(self@)
    }

    pub fn new() -> (r: Subscriptions)
        ensures
            r.wf(),
            r@ == Seq::<Seq<char>>::empty(),
    {
        let r = Subscriptions { channels: Vec::new() };
        proof {
            assert(r@ =~= Seq::<Seq<char>>::empty());
        }
        r
    }

    /// The number of channels listened on.
    pub fn len(&self) -> (r: usize)
        ensures
            r == self@.len(),
    {
        self.channels.len()
    }

    /// The channels listened on, in the order they were added.
    pub fn names(&self) -> (r: Vec<String>)
        ensures
            strings_view(r@) == self@,
    {
        let mut out: Vec<String> = Vec::new();
        let mut i: usize = 0;
        while i < self.channels.len()
            invariant
                i <= self.channels@.len(),
                out@.len() == i,
                forall|k: int| 0 <= k < i ==> (#[trigger] out@[k])@ == self.channels@[k]@,
            decreases self.channels@.len() - i,
        {
            out.push(self.channels[i].as_str().to_owned());
            i = i + 1;
        }
        proof {
            assert(strings_view(out@) =~= self@);
        }
        out
    }

    fn position(&self, name: &String) -> (r: Option<usize>)
        ensures
            match r {
                Some(i) => i < self@.len() && self@[i as int] == name@,
                None => !self@.contains(name@),
            },
    {
        let mut i: usize = 0;
        while i < self.channels.len()
            invariant
                i <= self.channels@.len(),
                forall|k: int| 0 <= k < i ==> (#[trigger] self.channels@[k])@ != name@,
            decreases self.channels@.len() - i,
        {
            if self.channels[i] == *name {
                return Some(i);
            }
            i = i + 1;
        }
        proof {
            if self@.contains(name@) {
                let k = choose|k: int| 0 <= k < self@.len() && self@[k] == name@;
                assert(self.channels@[k]@ == name@);
            }
        }
        None
    }

    /// Listens on `channel_name` too, and returns the acknowledgement with
    /// the number of channels now listened on.
    pub fn add(&mut self, channel_name: String) -> (r: Frame)
        requires
            old(self).wf(),
        ensures
            final(self).wf(),
            old(self)@.contains(channel_name@) ==> final(self)@ == old(self)@,
            !old(self)@.contains(channel_name@) ==> final(self)@ == old(self)@.push(
                channel_name@,
            ),
            r@ == ack(word_subscribe(), channel_name@, final(self)@.len()),
    {
        let name = channel_name.as_str().to_owned();
        match self.position(&channel_name) {
            Some(_) => {},
            None => {
                self.channels.push(channel_name);
                proof {
                    assert(self@ =~= old(self)@.push(name@));
                }
            },
        }
        make_subscribe_frame(name, self.channels.len())
    }

    /// Stops listening on `channel_name`, if it did, and returns the
    /// acknowledgement with the number of channels still listened on.
    pub fn remove(&mut self, channel_name: String) -> (r: Frame)
        requires
            old(self).wf(),
        ensures
            final(self).wf(),
            !final(self)@.contains(channel_name@),
            forall|c: Seq<char>|
                c != channel_name@ ==> (#[trigger] final(self)@.contains(c) <==> old(
                    self,
                )@.contains(c)),
            final(self)@.len() == if old(self)@.contains(channel_name@) {
                old(self)@.len() - 1
            } else {
                old(self)@.len() as int
            },
            r@ == ack(word_unsubscribe(), channel_name@, final(self)@.len()),
    {
        match self.position(&channel_name) {
            Some(i) => {
                self.channels.remove(i);
                proof {
                    let o = old(self)@;
                    assert(self@ =~= o.remove(i as int));
                    assert forall|c: Seq<char>| c != channel_name@ implies (#[trigger] self@.contains(c)
                        <==> o.contains(c)) by {
                        if o.contains(c) {
                            let k = choose|k: int| 0 <= k < o.len() && o[k] == c;
                            if k < i {
                                assert(self@[k] == c);
                            } else {
                                assert(self@[k - 1] == c);
                            }
                        }
                    }
                    if self@.contains(channel_name@) {
                        let k = choose|k: int| 0 <= k < self@.len() && self@[k] == channel_name@;
                        if k < i {
                            assert(o[k] == o[i as int]);
                        } else {
                            assert(o[k + 1] == o[i as int]);
                        }
                    }
                }
            },
            None => {},
        }
        let n = self.channels.len();
        make_unsubscribe_frame(channel_name, n)
    }
}

/// What a client command asks of a connection in subscribed mode.
pub enum SubscribedAction {
    /// Listen on these channels too.
    Subscribe(Vec<String>),
    /// Stop listening on these channels, acknowledging each.
    Unsubscribe(Vec<String>),
    /// Send this reply and stay subscribed.
    Reply(Frame),
}

/// What a command asks for in subscribed mode: `SUBSCRIBE` adds channels,
/// `UNSUBSCRIBE` removes the listed ones or, with none listed, all; any
/// other command is answered with the unknown-command error.
pub fn handle_command(cmd: Command, subscriptions: &Subscriptions) -> (r: SubscribedAction)
    ensures
        match cmd@ {
            CommandView::Subscribe { channels } => r is Subscribe && strings_view(
                r->Subscribe_0@,
            ) == channels,
            CommandView::Unsubscribe { channels } => r is Unsubscribe && strings_view(
                r->Unsubscribe_0@,
            ) == if channels.len() == 0 {
                subscriptions@
            } else {
                channels
            },
            other => r is Reply && r->Reply_0@ == FrameView::Error(unknown_message(name_of(other))),
        },
{
    let name = cmd.get_name();
    match cmd {
        Command::Subscribe(s) => SubscribedAction::Subscribe(s.channels),
        Command::Unsubscribe(u) => {
            if u.channels.len() == 0 {
                SubscribedAction::Unsubscribe(subscriptions.names())
            } else {
                SubscribedAction::Unsubscribe(u.channels)
            }
        },
        _ => SubscribedAction::Reply(Frame::Error(unknown_text(&name))),
    }
}

} // verus!
