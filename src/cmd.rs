//! Typed commands, read from request frames.
use crate::db::State;
use crate::frame::{decimal_of, parse_decimal, utf8_text, Frame, FrameView};
use vstd::slice::slice_to_vec;
use vstd::string::StringExecFns;
use vstd::prelude::*;
use vstd::utf8::*;

verus! {

broadcast use encode_utf8_decode_utf8;

/// ASCII upper-case letters to lower case; every other byte as it is.
pub open spec fn ascii_lower(b: u8) -> u8 {
    if 65 <= b && b <= 90 {
        (b + 32) as u8
    } else {
        b
    }
}

/// Whether `name` spells the lower-case `word`, ignoring ASCII case.
pub open spec fn word_match(name: Seq<u8>, word: Seq<u8>) -> bool {
    name.len() == word.len() && forall|i: int| 0 <= i < name.len() ==> ascii_lower(
        #[trigger] name[i],
    ) == word[i]
}

fn lower_byte(b: u8) -> (r: u8)
    ensures
        r == ascii_lower(b),
{
    if 65 <= b && b <= 90 {
        b + 32
    } else {
        b
    }
}

/// Whether `name` spells the lower-case `word`, ignoring ASCII case.
pub fn matches_word(name: &[u8], word: &[u8]) -> (r: bool)
    ensures
        r == word_match(name@, word@),
{
    if name.len() != word.len() {
        return false;
    }
    let mut i: usize = 0;
    while i < name.len()
        invariant
            name@.len() == word@.len(),
            i <= name@.len(),
            forall|k: int| 0 <= k < i ==> ascii_lower(#[trigger] name@[k]) == word@[k],
        decreases name@.len() - i,
    {
        if lower_byte(name[i]) != word[i] {
            return false;
        }
        i = i + 1;
    }
    true
}

// ---------------------------------------------------------------------------
// Commands and their values
// ---------------------------------------------------------------------------

/// `GET key`
pub struct Get {
    pub key: String,
}

/// `SET key value [EX seconds | PX milliseconds]`; the expiry is kept in
/// milliseconds.
pub struct SetCmd {
    pub key: String,
    pub value: Vec<u8>,
    pub expire: Option<u64>,
}

/// `PUBLISH channel message`
pub struct Publish {
    pub channel: String,
    pub message: Vec<u8>,
}

/// `SUBSCRIBE channel [channel ...]`
pub struct Subscribe {
    pub channels: Vec<String>,
}

/// `UNSUBSCRIBE [channel ...]`; no channel means every channel.
pub struct Unsubscribe {
    pub channels: Vec<String>,
}

/// `PING [message]`
pub struct Ping {
    pub msg: Option<Vec<u8>>,
}

/// A command whose name is none of the above.
pub struct Unknown {
    pub command_name: String,
}

pub enum Command {
    Get(Get),
    SetCmd(SetCmd),
    Publish(Publish),
    Subscribe(Subscribe),
    Unsubscribe(Unsubscribe),
    Ping(Ping),
    Unknown(Unknown),
}

/// Why a request frame is not a command.
#[derive(Debug)]
pub enum ParseError {
    /// The frame has fewer parts than the command needs.
    EndOfStream,
    /// The frame is not shaped as a command.
    Other(String),
}

pub enum CommandView {
    Get { key: Seq<char> },
    SetCmd { key: Seq<char>, value: Seq<u8>, expire: Option<u64> },
    Publish { channel: Seq<char>, message: Seq<u8> },
    Subscribe { channels: Seq<Seq<char>> },
    Unsubscribe { channels: Seq<Seq<char>> },
    Ping { msg: Option<Seq<u8>> },
    Unknown { name: Seq<char> },
}

pub open spec fn strings_view(v: Seq<String>) -> Seq<Seq<char>> {
    Seq::new(v.len(), |i: int| v[i]@)
}

pub open spec fn opt_bytes_view(m: Option<Vec<u8>>) -> Option<Seq<u8>> {
    match m {
        Some(b) => Some(b@),
        None => None,
    }
}

impl View for Command {
    type V = CommandView;

    open spec fn view(&self) -> CommandView {
        match self {
            Command::Get(c) => CommandView::Get { key: c.key@ },
            Command::SetCmd(c) => CommandView::SetCmd { key: c.key@, value: c.value@, expire: c.expire },
            Command::Publish(c) => CommandView::Publish {
                channel: c.channel@,
                message: c.message@,
            },
            Command::Subscribe(c) => CommandView::Subscribe { channels: strings_view(c.channels@) },
            Command::Unsubscribe(c) => CommandView::Unsubscribe {
                channels: strings_view(c.channels@),
            },
            Command::Ping(c) => CommandView::Ping { msg: opt_bytes_view(c.msg) },
            Command::Unknown(c) => CommandView::Unknown { name: c.command_name@ },
        }
    }
}

// ---------------------------------------------------------------------------
// What a request frame means
// ---------------------------------------------------------------------------

/// `get`
pub open spec fn word_get() -> Seq<u8> {
    seq![103, 101, 116]
}

/// `set`
pub open spec fn word_set() -> Seq<u8> {
    seq![115, 101, 116]
}

/// `publish`
pub open spec fn word_publish() -> Seq<u8> {
    seq![112, 117, 98, 108, 105, 115, 104]
}

/// `subscribe`
pub open spec fn word_subscribe() -> Seq<u8> {
    seq![115, 117, 98, 115, 99, 114, 105, 98, 101]
}

/// `unsubscribe`
pub open spec fn word_unsubscribe() -> Seq<u8> {
    seq![117, 110, 115, 117, 98, 115, 99, 114, 105, 98, 101]
}

/// `ping`
pub open spec fn word_ping() -> Seq<u8> {
    seq![112, 105, 110, 103]
}

/// `ex`
pub open spec fn word_ex() -> Seq<u8> {
    seq![101, 120]
}

/// `px`
pub open spec fn word_px() -> Seq<u8> {
    seq![112, 120]
}

/// A part read as text: a simple frame, or a bulk frame holding UTF-8.
pub open spec fn text_of(f: FrameView) -> Option<Seq<char>> {
    match f {
        FrameView::Simple(s) => Some(s),
        FrameView::Bulk(b) => if valid_utf8(b) {
            Some(decode_utf8(b))
        } else {
            None
        },
        _ => None,
    }
}

/// A part read as bytes: a simple or a bulk frame.
pub open spec fn bytes_of(f: FrameView) -> Option<Seq<u8>> {
    match f {
        FrameView::Simple(s) => Some(encode_utf8(s)),
        FrameView::Bulk(b) => Some(b),
        _ => None,
    }
}

/// A part read as an unsigned number: an integer frame, or decimal digits.
pub open spec fn int_of(f: FrameView) -> Option<u64> {
    match f {
        FrameView::Integer(n) => Some(n),
        FrameView::Simple(s) => decimal_of(encode_utf8(s)),
        FrameView::Bulk(b) => decimal_of(b),
        _ => None,
    }
}

pub open spec fn all_texts(args: Seq<FrameView>) -> bool {
    forall|i: int| 0 <= i < args.len() ==> #[trigger] text_of(args[i]) is Some
}

pub open spec fn texts_of(args: Seq<FrameView>) -> Seq<Seq<char>> {
    Seq::new(args.len(), |i: int| text_of(args[i])->0)
}

/// The expiry in milliseconds that `EX n` or `PX n` asks for; seconds
/// past what milliseconds can count stand for the longest expiry.
pub open spec fn expire_of(unit: Seq<char>, n: u64) -> Option<u64> {
    if word_match(encode_utf8(unit), word_ex()) {
        if n * 1000 <= u64::MAX {
            Some((n * 1000) as u64)
        } else {
            Some(u64::MAX)
        }
    } else if word_match(encode_utf8(unit), word_px()) {
        Some(n)
    } else {
        None
    }
}

/// The command that a name and its arguments make, if they are well shaped.
pub open spec fn command_args(name: Seq<char>, args: Seq<FrameView>) -> Option<CommandView> {
    let b = encode_utf8(name);
    if word_match(b, word_get()) {
        if args.len() == 1 && text_of(args[0]) is Some {
            Some(CommandView::Get { key: text_of(args[0])->0 })
        } else {
            None
        }
    } else if word_match(b, word_set()) {
        if (args.len() == 2 || args.len() == 4) && text_of(args[0]) is Some && bytes_of(
            args[1],
        ) is Some {
            let key = text_of(args[0])->0;
            let value = bytes_of(args[1])->0;
            if args.len() == 2 {
                Some(CommandView::SetCmd { key, value, expire: None })
            } else if text_of(args[2]) is Some && int_of(args[3]) is Some && expire_of(
                text_of(args[2])->0,
                int_of(args[3])->0,
            ) is Some {
                Some(
                    CommandView::SetCmd {
                        key,
                        value,
                        expire: expire_of(text_of(args[2])->0, int_of(args[3])->0),
                    },
                )
            } else {
                None
            }
        } else {
            None
        }
    } else if word_match(b, word_publish()) {
        if args.len() == 2 && text_of(args[0]) is Some && bytes_of(args[1]) is Some {
            Some(
                CommandView::Publish {
                    channel: text_of(args[0])->0,
                    message: bytes_of(args[1])->0,
                },
            )
        } else {
            None
        }
    } else if word_match(b, word_subscribe()) {
        if args.len() >= 1 && all_texts(args) {
            Some(CommandView::Subscribe { channels: texts_of(args) })
        } else {
            None
        }
    } else if word_match(b, word_unsubscribe()) {
        if all_texts(args) {
            Some(CommandView::Unsubscribe { channels: texts_of(args) })
        } else {
            None
        }
    } else if word_match(b, word_ping()) {
        if args.len() == 0 {
            Some(CommandView::Ping { msg: None })
        } else if args.len() == 1 && bytes_of(args[0]) is Some {
            Some(CommandView::Ping { msg: bytes_of(args[0]) })
        } else {
            None
        }
    } else {
        Some(CommandView::Unknown { name })
    }
}

/// The command that a request frame stands for: an array whose first part
/// names the command, case aside, and whose other parts are its arguments.
pub open spec fn command_of(f: FrameView) -> Option<CommandView> {
    match f {
        FrameView::Array(items) => if items.len() > 0 && text_of(items[0]) is Some {
            command_args(text_of(items[0])->0, items.subrange(1, items.len() as int))
        } else {
            None
        },
        _ => None,
    }
}

// ---------------------------------------------------------------------------
// Reading arguments
// ---------------------------------------------------------------------------

/// A part read as text.
pub fn text_arg(f: &Frame) -> (r: Option<String>)
    ensures
        match text_of(f@) {
            Some(s) => r is Some && r->0@ == s,
            None => r is None,
        },
{
    match f {
        Frame::Simple(s) => Some(s.as_str().to_owned()),
        Frame::Bulk(b) => match utf8_text(b.as_slice()) {
            Some(t) => Some(t.to_owned()),
            None => None,
        },
        _ => None,
    }
}

/// A part read as bytes.
pub fn bytes_arg(f: &Frame) -> (r: Option<Vec<u8>>)
    ensures
        match bytes_of(f@) {
            Some(b) => r is Some && r->0@ == b,
            None => r is None,
        },
{
    match f {
        Frame::Simple(s) => Some(slice_to_vec(s.as_str().as_bytes())),
        Frame::Bulk(b) => Some(slice_to_vec(b.as_slice())),
        _ => None,
    }
}

/// A part read as an unsigned number.
pub fn int_arg(f: &Frame) -> (r: Option<u64>)
    ensures
        r == int_of(f@),
{
    match f {
        Frame::Integer(n) => Some(*n),
        Frame::Simple(s) => parse_decimal(s.as_str().as_bytes()),
        Frame::Bulk(b) => parse_decimal(b.as_slice()),
        _ => None,
    }
}

fn protocol_error() -> (r: ParseError)
    ensures
        r is Other,
{
    ParseError::Other("protocol error; malformed command frame".to_owned())
}

/// The values of the parts from `start` on.
pub open spec fn args_from(items: Seq<Frame>, start: int) -> Seq<FrameView> {
    crate::frame::frames_view(items).subrange(start, items.len() as int)
}

/// Reads the parts from `start` on as text.
fn texts_from(items: &Vec<Frame>, start: usize) -> (r: Option<Vec<String>>)
    requires
        start <= items@.len(),
    ensures
        all_texts(args_from(items@, start as int)) ==> r is Some && strings_view(r->0@)
            == texts_of(args_from(items@, start as int)),
        !all_texts(args_from(items@, start as int)) ==> r is None,
{
    let ghost fv = crate::frame::frames_view(items@);
    proof {
        crate::frame::lemma_frames_view_index(items@);
    }
    let ghost args = fv.subrange(start as int, items@.len() as int);
    let mut out: Vec<String> = Vec::new();
    let mut i: usize = start;
    while i < items.len()
        invariant
            start <= i <= items@.len(),
            fv == crate::frame::frames_view(items@),
            fv.len() == items@.len(),
            forall|k: int| 0 <= k < items@.len() ==> #[trigger] fv[k] == items@[k]@,
            args == fv.subrange(start as int, items@.len() as int),
            out@.len() == i - start,
            forall|k: int| 0 <= k < i - start ==> #[trigger] text_of(args[k]) is Some,
            forall|k: int| 0 <= k < i - start ==> #[trigger] out@[k]@ == text_of(args[k])->0,
        decreases items@.len() - i,
    {
        match text_arg(&items[i]) {
            Some(t) => {
                proof {
                    assert(args[i - start] == fv[i as int]);
                }
                out.push(t);
            },
            None => {
                proof {
                    assert(args[i - start] == fv[i as int]);
                    assert(!(text_of(args[i - start]) is Some));
                    assert(!all_texts(args));
                }
                return None;
            },
        }
        i = i + 1;
    }
    proof {
        assert(strings_view(out@) =~= texts_of(args));
    }
    Some(out)
}


fn expire_arg(unit: &String, n: u64) -> (r: Option<u64>)
    ensures
        r == expire_of(unit@, n),
{
    let w_ex: [u8; 2] = [101, 120];
    let w_px: [u8; 2] = [112, 120];
    proof {
        assert(w_ex@ =~= word_ex());
        assert(w_px@ =~= word_px());
    }
    let ub = unit.as_str().as_bytes();
    if matches_word(ub, &w_ex) {
        if n > u64::MAX / 1000 {
            Some(u64::MAX)
        } else {
            Some(n * 1000)
        }
    } else if matches_word(ub, &w_px) {
        Some(n)
    } else {
        None
    }
}

impl Command {
    /// The command that a request frame stands for; an error where the frame
    /// is not shaped as one. An unknown name makes an `Unknown` command.
    pub fn from_frame(frame: Frame) -> (r: Result<Command, ParseError>)
        ensures
            match command_of(frame@) {
                Some(c) => r is Ok && r->Ok_0@ == c,
                None => r is Err,
            },
    {
        let items = match frame {
            Frame::Array(v) => v,
            _ => return Err(protocol_error()),
        };
        proof {
            crate::frame::lemma_frames_view_index(items@);
        }
        if items.len() == 0 {
            return Err(ParseError::EndOfStream);
        }
        let name = match text_arg(&items[0]) {
            Some(n) => n,
            None => return Err(protocol_error()),
        };
        let argc = items.len() - 1;
        let ghost args = args_from(items@, 1);
        assert(args.len() == argc);
        assert(forall|k: int| 0 <= k < argc ==> #[trigger] args[k] == items@[k + 1]@);
        let w_get: [u8; 3] = [103, 101, 116];
        let w_set: [u8; 3] = [115, 101, 116];
        let w_publish: [u8; 7] = [112, 117, 98, 108, 105, 115, 104];
        let w_subscribe: [u8; 9] = [115, 117, 98, 115, 99, 114, 105, 98, 101];
        let w_unsubscribe: [u8; 11] = [117, 110, 115, 117, 98, 115, 99, 114, 105, 98, 101];
        let w_ping: [u8; 4] = [112, 105, 110, 103];
        proof {
            assert(w_get@ =~= word_get());
            assert(w_set@ =~= word_set());
            assert(w_publish@ =~= word_publish());
            assert(w_subscribe@ =~= word_subscribe());
            assert(w_unsubscribe@ =~= word_unsubscribe());
            assert(w_ping@ =~= word_ping());
        }
        let nb = name.as_str().as_bytes();
        if matches_word(nb, &w_get) {
            if argc != 1 {
                return Err(protocol_error());
            }
            match text_arg(&items[1]) {
                Some(key) => Ok(Command::Get(Get { key })),
                None => Err(protocol_error()),
            }
        } else if matches_word(nb, &w_set) {
            if argc != 2 && argc != 4 {
                return Err(protocol_error());
            }
            let key = match text_arg(&items[1]) {
                Some(k) => k,
                None => return Err(protocol_error()),
            };
            let value = match bytes_arg(&items[2]) {
                Some(v) => v,
                None => return Err(protocol_error()),
            };
            if argc == 2 {
                return Ok(Command::SetCmd(SetCmd { key, value, expire: None }));
            }
            let unit = match text_arg(&items[3]) {
                Some(u) => u,
                None => return Err(protocol_error()),
            };
            let n = match int_arg(&items[4]) {
                Some(n) => n,
                None => return Err(protocol_error()),
            };
            match expire_arg(&unit, n) {
                Some(ms) => Ok(Command::SetCmd(SetCmd { key, value, expire: Some(ms) })),
                None => Err(ParseError::Other(
                    "currently `SET` only supports the expiration option".to_owned(),
                )),
            }
        } else if matches_word(nb, &w_publish) {
            if argc != 2 {
                return Err(protocol_error());
            }
            let channel = match text_arg(&items[1]) {
                Some(c) => c,
                None => return Err(protocol_error()),
            };
            match bytes_arg(&items[2]) {
                Some(message) => Ok(Command::Publish(Publish { channel, message })),
                None => Err(protocol_error()),
            }
        } else if matches_word(nb, &w_subscribe) {
            if argc == 0 {
                return Err(ParseError::EndOfStream);
            }
            match texts_from(&items, 1) {
                Some(channels) => Ok(Command::Subscribe(Subscribe { channels })),
                None => Err(protocol_error()),
            }
        } else if matches_word(nb, &w_unsubscribe) {
            match texts_from(&items, 1) {
                Some(channels) => Ok(Command::Unsubscribe(Unsubscribe { channels })),
                None => Err(protocol_error()),
            }
        } else if matches_word(nb, &w_ping) {
            if argc == 0 {
                return Ok(Command::Ping(Ping { msg: None }));
            }
            if argc != 1 {
                return Err(protocol_error());
            }
            match bytes_arg(&items[1]) {
                Some(m) => Ok(Command::Ping(Ping { msg: Some(m) })),
                None => Err(protocol_error()),
            }
        } else {
            Ok(Command::Unknown(Unknown { command_name: name }))
        }
    }
}


// ---------------------------------------------------------------------------
// Responses
// ---------------------------------------------------------------------------

/// `ERR unknown command '`
pub open spec fn unknown_prefix() -> Seq<char> {
    seq![
        'E', 'R', 'R', ' ', 'u', 'n', 'k', 'n', 'o', 'w', 'n', ' ', 'c', 'o', 'm', 'm', 'a',
        'n', 'd', ' ', '\'',
    ]
}

/// The error text that answers a command named `name` where it is not
/// served.
pub open spec fn unknown_message(name: Seq<char>) -> Seq<char> {
    unknown_prefix() + name + seq!['\'']
}

/// The name that a command goes by in error replies: the lower-case command
/// word, or the name as given for an unknown one.
pub open spec fn name_of(c: CommandView) -> Seq<char> {
    match c {
        CommandView::Get { .. } => seq!['g', 'e', 't'],
        CommandView::SetCmd { .. } => seq!['s', 'e', 't'],
        CommandView::Publish { .. } => seq!['p', 'u', 'b', 'l', 'i', 's', 'h'],
        CommandView::Subscribe { .. } => seq!['s', 'u', 'b', 's', 'c', 'r', 'i', 'b', 'e'],
        CommandView::Unsubscribe { .. } => seq![
            'u', 'n', 's', 'u', 'b', 's', 'c', 'r', 'i', 'b', 'e',
        ],
        CommandView::Ping { .. } => seq!['p', 'i', 'n', 'g'],
        CommandView::Unknown { name } => name,
    }
}

/// The reply `+OK`.
pub open spec fn ok_reply() -> FrameView {
    FrameView::Simple(seq!['O', 'K'])
}

/// The reply `+PONG`.
pub open spec fn pong_reply() -> FrameView {
    FrameView::Simple(seq!['P', 'O', 'N', 'G'])
}

impl Command {
    /// The name the command goes by in error replies.
    pub fn get_name(&self) -> (r: String)
        ensures
            r@ == name_of(self@),
    {
        proof {
            reveal_strlit("get");
            reveal_strlit("set");
            reveal_strlit("publish");
            reveal_strlit("subscribe");
            reveal_strlit("unsubscribe");
            reveal_strlit("ping");
        }
        match self {
            Command::Get(_) => "get".to_owned(),
            Command::SetCmd(_) => "set".to_owned(),
            Command::Publish(_) => "publish".to_owned(),
            Command::Subscribe(_) => "subscribe".to_owned(),
            Command::Unsubscribe(_) => "unsubscribe".to_owned(),
            Command::Ping(_) => "ping".to_owned(),
            Command::Unknown(u) => u.command_name.as_str().to_owned(),
        }
    }
}

impl Get {
    pub fn new(key: &str) -> (r: Get)
        ensures
            r.key@ == key@,
    {
        Get { key: key.to_owned() }
    }

    pub fn key(&self) -> (r: &str)
        ensures
            r@ == self.key@,
    {
        self.key.as_str()
    }

    /// The reply: the stored bytes, or null where the key is absent.
    pub fn apply<S>(&self, db: &State<S>) -> (r: Frame)
        requires
            db.wf(),
        ensures
            db.kv().contains_key(self.key@) ==> r@ == FrameView::Bulk(db.kv()[self.key@].0),
            !db.kv().contains_key(self.key@) ==> r@ == FrameView::Null,
    {
        match db.get(self.key.as_str()) {
            Some(value) => Frame::Bulk(value),
            None => Frame::Null,
        }
    }

    /// The request frame that asks for this command.
    pub fn into_frame(self) -> (r: Frame)
        ensures
            r@ == FrameView::Array(
                seq![FrameView::Bulk(word_get()), FrameView::Bulk(encode_utf8(self.key@))],
            ),
    {
        let w: [u8; 3] = [103, 101, 116];
        proof {
            assert(w@ =~= word_get());
        }
        let mut frame = Frame::array();
        frame.push_bulk(slice_to_vec(&w));
        frame.push_bulk(slice_to_vec(self.key.as_str().as_bytes()));
        proof {
            assert(frame@->Array_0 =~= seq![
                FrameView::Bulk(word_get()),
                FrameView::Bulk(encode_utf8(self.key@)),
            ]);
        }
        frame
    }
}

impl SetCmd {
    /// `expire` is in milliseconds.
    pub fn new(key: &str, value: Vec<u8>, expire: Option<u64>) -> (r: SetCmd)
        ensures
            r.key@ == key@,
            r.value@ == value@,
            r.expire == expire,
    {
        SetCmd { key: key.to_owned(), value, expire }
    }

    pub fn key(&self) -> (r: &str)
        ensures
            r@ == self.key@,
    {
        self.key.as_str()
    }

    pub fn value(&self) -> (r: &Vec<u8>)
        ensures
            r@ == self.value@,
    {
        &self.value
    }

    pub fn expire(&self) -> (r: Option<u64>)
        ensures
            r == self.expire,
    {
        self.expire
    }

    /// Stores the value at `now`; the reply is `+OK`. Also returns whether
    /// the expiry must be looked at again (see `State::set`).
    pub fn apply<S>(self, db: &mut State<S>, now: u64) -> (r: (Frame, bool))
        requires
            old(db).wf(),
        ensures
            final(db).wf(),
            final(db).kv() == old(db).kv().insert(
                self.key@,
                (self.value@, crate::db::expire_at(self.expire, now)),
            ),
            final(db).channels() == old(db).channels(),
            final(db).is_shut_down() == old(db).is_shut_down(),
            r.0@ == ok_reply(),
            r.1 == match crate::db::expire_at(self.expire, now) {
                Some(t) => forall|p: (u64, Seq<char>)|
                    #[trigger] old(db).index().contains(p) ==> t < p.0,
                None => false,
            },
    {
        let notify = db.set(self.key, self.value, self.expire, now);
        let ok = "OK".to_owned();
        proof {
            reveal_strlit("OK");
            assert(ok@ =~= seq!['O', 'K']);
        }
        (Frame::Simple(ok), notify)
    }

    /// The request frame that asks for this command; an expiry is sent in
    /// milliseconds, as `PX`.
    pub fn into_frame(self) -> (r: Frame)
        ensures
            self.expire is None ==> r@ == FrameView::Array(
                seq![
                    FrameView::Bulk(word_set()),
                    FrameView::Bulk(encode_utf8(self.key@)),
                    FrameView::Bulk(self.value@),
                ],
            ),
            self.expire is Some ==> r@ == FrameView::Array(
                seq![
                    FrameView::Bulk(word_set()),
                    FrameView::Bulk(encode_utf8(self.key@)),
                    FrameView::Bulk(self.value@),
                    FrameView::Bulk(word_px()),
                    FrameView::Integer(self.expire->0),
                ],
            ),
    {
        let w: [u8; 3] = [115, 101, 116];
        let px: [u8; 2] = [112, 120];
        proof {
            assert(w@ =~= word_set());
            assert(px@ =~= word_px());
        }
        let mut frame = Frame::array();
        frame.push_bulk(slice_to_vec(&w));
        frame.push_bulk(slice_to_vec(self.key.as_str().as_bytes()));
        let ghost v = self.value@;
        frame.push_bulk(self.value);
        match self.expire {
            Some(ms) => {
                frame.push_bulk(slice_to_vec(&px));
                frame.push_int(ms);
                proof {
                    assert(frame@->Array_0 =~= seq![
                        FrameView::Bulk(word_set()),
                        FrameView::Bulk(encode_utf8(self.key@)),
                        FrameView::Bulk(v),
                        FrameView::Bulk(word_px()),
                        FrameView::Integer(ms),
                    ]);
                }
            },
            None => {
                proof {
                    assert(frame@->Array_0 =~= seq![
                        FrameView::Bulk(word_set()),
                        FrameView::Bulk(encode_utf8(self.key@)),
                        FrameView::Bulk(v),
                    ]);
                }
            },
        }
        frame
    }
}

impl Publish {
    pub fn new(channel: &str, message: Vec<u8>) -> (r: Publish)
        ensures
            r.channel@ == channel@,
            r.message@ == message@,
    {
        Publish { channel: channel.to_owned(), message }
    }

    /// The reply to a publish, given what sending found: `None` where the
    /// channel has no sender, else the number of receivers the send reached,
    /// `None` inside where it found none. The reply counts them, or is 0.
    pub fn reply(sent: Option<Option<usize>>) -> (r: Frame)
        ensures
            r@ == FrameView::Integer(
                match sent {
                    Some(Some(n)) => n as u64,
                    _ => 0,
                },
            ),
    {
        match sent {
            Some(Some(n)) => Frame::Integer(n as u64),
            _ => Frame::Integer(0),
        }
    }

    /// The request frame that asks for this command.
    pub fn into_frame(self) -> (r: Frame)
        ensures
            r@ == FrameView::Array(
                seq![
                    FrameView::Bulk(word_publish()),
                    FrameView::Bulk(encode_utf8(self.channel@)),
                    FrameView::Bulk(self.message@),
                ],
            ),
    {
        let w: [u8; 7] = [112, 117, 98, 108, 105, 115, 104];
        proof {
            assert(w@ =~= word_publish());
        }
        let mut frame = Frame::array();
        frame.push_bulk(slice_to_vec(&w));
        frame.push_bulk(slice_to_vec(self.channel.as_str().as_bytes()));
        let ghost m = self.message@;
        frame.push_bulk(self.message);
        proof {
            assert(frame@->Array_0 =~= seq![
                FrameView::Bulk(word_publish()),
                FrameView::Bulk(encode_utf8(self.channel@)),
                FrameView::Bulk(m),
            ]);
        }
        frame
    }
}

/// A bulk frame for each name, in order.
pub open spec fn bulk_names(names: Seq<Seq<char>>) -> Seq<FrameView> {
    Seq::new(names.len(), |i: int| FrameView::Bulk(encode_utf8(names[i])))
}

/// An array of a command word followed by one bulk frame per name.
fn word_and_names(word: &[u8], names: Vec<String>) -> (r: Frame)
    ensures
        r@ == FrameView::Array(seq![FrameView::Bulk(word@)] + bulk_names(strings_view(names@))),
{
    let mut frame = Frame::array();
    frame.push_bulk(slice_to_vec(word));
    let mut i: usize = 0;
    while i < names.len()
        invariant
            i <= names@.len(),
            frame@ == FrameView::Array(
                seq![FrameView::Bulk(word@)] + bulk_names(strings_view(names@.subrange(0, i as int))),
            ),
        decreases names@.len() - i,
    {
        frame.push_bulk(slice_to_vec(names[i].as_str().as_bytes()));
        proof {
            assert(seq![FrameView::Bulk(word@)] + bulk_names(strings_view(names@.subrange(0, i + 1)))
                =~= (seq![FrameView::Bulk(word@)] + bulk_names(
                strings_view(names@.subrange(0, i as int)),
            )).push(FrameView::Bulk(encode_utf8(names@[i as int]@))));
        }
        i = i + 1;
    }
    proof {
        assert(names@.subrange(0, i as int) =~= names@);
    }
    frame
}

impl Subscribe {
    pub fn new(channels: Vec<String>) -> (r: Subscribe)
        ensures
            r.channels@ == channels@,
    {
        Subscribe { channels }
    }

    /// The request frame that asks for this command.
    pub fn into_frame(self) -> (r: Frame)
        ensures
            r@ == FrameView::Array(
                seq![FrameView::Bulk(word_subscribe())] + bulk_names(strings_view(self.channels@)),
            ),
    {
        let w: [u8; 9] = [115, 117, 98, 115, 99, 114, 105, 98, 101];
        proof {
            assert(w@ =~= word_subscribe());
        }
        word_and_names(&w, self.channels)
    }
}

impl Unsubscribe {
    pub fn new(channels: &[String]) -> (r: Unsubscribe)
        ensures
            strings_view(r.channels@) == strings_view(channels@),
    {
        let mut out: Vec<String> = Vec::new();
        let mut i: usize = 0;
        while i < channels.len()
            invariant
                i <= channels@.len(),
                out@.len() == i,
                forall|k: int| 0 <= k < i ==> (#[trigger] out@[k])@ == channels@[k]@,
            decreases channels@.len() - i,
        {
            out.push(channels[i].as_str().to_owned());
            i = i + 1;
        }
        proof {
            assert(strings_view(out@) =~= strings_view(channels@));
        }
        Unsubscribe { channels: out }
    }

    /// The request frame that asks for this command.
    pub fn into_frame(self) -> (r: Frame)
        ensures
            r@ == FrameView::Array(
                seq![FrameView::Bulk(word_unsubscribe())] + bulk_names(strings_view(self.channels@)),
            ),
    {
        let w: [u8; 11] = [117, 110, 115, 117, 98, 115, 99, 114, 105, 98, 101];
        proof {
            assert(w@ =~= word_unsubscribe());
        }
        word_and_names(&w, self.channels)
    }
}

impl Ping {
    pub fn new(msg: Option<Vec<u8>>) -> (r: Ping)
        ensures
            opt_bytes_view(r.msg) == opt_bytes_view(msg),
    {
        Ping { msg }
    }

    /// The reply: `+PONG`, or the message as a bulk frame.
    pub fn apply(self) -> (r: Frame)
        ensures
            self.msg is None ==> r@ == pong_reply(),
            self.msg is Some ==> r@ == FrameView::Bulk(self.msg->0@),
    {
        match self.msg {
            None => {
                let pong = "PONG".to_owned();
                proof {
                    reveal_strlit("PONG");
                    assert(pong@ =~= seq!['P', 'O', 'N', 'G']);
                }
                Frame::Simple(pong)
            },
            Some(m) => Frame::Bulk(m),
        }
    }
}

/// The error text that answers a command named `name` where it is not
/// served.
pub fn unknown_text(name: &String) -> (r: String)
    ensures
        r@ == unknown_message(name@),
{
    let mut s = "ERR unknown command '".to_owned();
    proof {
        reveal_strlit("ERR unknown command '");
        reveal_strlit("'");
    }
    s.append(name.as_str());
    s.append("'");
    proof {
        assert(s@ =~= unknown_message(name@));
    }
    s
}

impl Unknown {
    pub fn new(name: String) -> (r: Unknown)
        ensures
            r.command_name@ == name@,
    {
        Unknown { command_name: name }
    }

    pub fn get_name(&self) -> (r: &str)
        ensures
            r@ == self.command_name@,
    {
        self.command_name.as_str()
    }

    /// The reply: an error naming the command.
    pub fn apply(&self) -> (r: Frame)
        ensures
            r@ == FrameView::Error(unknown_message(self.command_name@)),
    {
        Frame::Error(unknown_text(&self.command_name))
    }
}

} // verus!
