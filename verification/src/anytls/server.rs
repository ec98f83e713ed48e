//! The first bytes of a connection: who the client is.

use std::sync::Arc;

use aws_lc_rs::digest::{digest, SHA256};
use vstd::prelude::*;
use vstd::slice::slice_subrange;
use vstd::string::*;
use vstd::utf8::*;

use crate::address::{NetLocation, NetLocationView};
use crate::anytls::padding;
use crate::anytls::padding::PaddingFactory;
use crate::error::Error;
use crate::stream_reader;
use crate::stream_reader::StreamReader;
use crate::text;
use crate::util;

verus! {

/// Runtime configuration for the AnyTLS server.
pub struct AnyTlsServerConfig {
    pub listen: String,
    pub cert: Option<String>,
    pub key: Option<String>,
    pub udp_enabled: bool,
    /// (name, password) pairs for authentication.
    pub users: Vec<(String, String)>,
    pub padding_scheme: Option<String>,
    /// Optional fallback destination for failed authentication.
    pub fallback: Option<NetLocation>,
}

/// The padding that a configuration asks for: that of its scheme, or else the default one.
pub fn configured_padding(padding_scheme: &Option<String>) -> (r: Result<Arc<PaddingFactory>, Error>)
    ensures
        match r {
            Ok(factory) => factory.wf() && factory.raw() == (match padding_scheme {
                Some(scheme) => encode_utf8(scheme@),
                None => encode_utf8(padding::DEFAULT_PADDING_SCHEME@),
            }),
            Err(e) => {
                &&& padding_scheme matches Some(scheme)
                &&& padding::stop_of(encode_utf8(scheme@)) == Err::<u32, Error>(e)
            },
        },
{
    match padding_scheme {
        Some(scheme) => match PaddingFactory::new(scheme.as_str().as_bytes()) {
            Ok(factory) => Ok(Arc::new(factory)),
            Err(e) => Err(e),
        },
        None => Ok(PaddingFactory::default_factory()),
    }
}

// =============================== users ===============================

/// The SHA-256 digest of some bytes.
pub uninterp spec fn sha256_of(data: Seq<u8>) -> Seq<u8>;

/// Computes a SHA-256 digest.
///
/// Calls `aws_lc_rs::digest::digest` with `aws_lc_rs::digest::SHA256`. The contract names the
/// digest and says nothing more of it than its length.
#[verifier::external_body]
fn sha256_digest(data: &[u8]) -> (r: Vec<u8>)
    ensures
        r@ == sha256_of(data@),
        r@.len() == 32,
{
    digest(&SHA256, data).as_ref().to_vec()
}

/// A user: the digest of the password, and the name.
pub struct User {
    password_hash: Vec<u8>,
    name: String,
}

/// What a [`User`] stands for.
#[verifier::ext_equal]
pub struct UserView {
    pub password_hash: Seq<u8>,
    pub name: Seq<char>,
}

impl View for User {
    type V = UserView;

    closed spec fn view(&self) -> UserView {
        UserView { password_hash: self.password_hash@, name: self.name@ }
    }
}

/// The users of a configuration, each with the digest of the password.
pub open spec fn users_of(users: Seq<(String, String)>) -> Seq<UserView> {
    Seq::new(
        users.len(),
        |i: int|
            UserView { password_hash: sha256_of(encode_utf8(users[i].1@)), name: users[i].0@ },
    )
}

/// The name of the last user with a password digest.
pub open spec fn user_with(users: Seq<UserView>, hash: Seq<u8>) -> Option<Seq<char>>
    decreases users.len(),
{
    if users.len() == 0 {
        None
    } else if users.last().password_hash == hash {
        Some(users.last().name)
    } else {
        user_with(users.drop_last(), hash)
    }
}

/// Whether the digest of some user starts with some bytes.
pub open spec fn known_prefix(users: Seq<UserView>, prefix: Seq<u8>) -> bool {
    exists|i: int| 0 <= i < users.len() && #[trigger] users[i].password_hash.take(8) == prefix
}

/// What is known of a client, by the first bytes of its connection.
#[verifier::ext_equal]
pub enum GreetingView {
    /// More bytes are needed.
    Pending,
    /// The client is let in: its name, and how many bytes the greeting takes.
    Accepted(Seq<char>, int),
    /// The client is none, and the reason for it.
    Refused(Error),
    /// The client claims more padding than can be read.
    Failed(Error),
}

/// What the first bytes of a connection say: the digest of a password, the length of some
/// padding, and the padding. Eight bytes that no digest starts with are enough to refuse.
pub open spec fn greeting(users: Seq<UserView>, d: Seq<u8>, buffer_size: nat) -> GreetingView {
    let len = util::be16(d[32], d[33]);
    if d.len() < 8 {
        GreetingView::Pending
    } else if !known_prefix(users, d.take(8)) {
        GreetingView::Refused(Error::PrefixMismatch)
    } else if d.len() < 32 {
        GreetingView::Pending
    } else {
        match user_with(users, d.take(32)) {
            None => GreetingView::Refused(Error::AuthenticationFailed),
            Some(name) => if d.len() < 34 {
                GreetingView::Pending
            } else if len > buffer_size {
                GreetingView::Failed(Error::ExceedsBuffer)
            } else if d.len() < 34 + len {
                GreetingView::Pending
            } else {
                GreetingView::Accepted(name, 34 + len)
            },
        }
    }
}

/// A greeting that is settled stays settled: however its bytes are cut into pieces on their
/// way, the same answer comes out.
pub proof fn greeting_prefix(users: Seq<UserView>, d: Seq<u8>, rest: Seq<u8>, buffer_size: nat)
    requires
        greeting(users, d, buffer_size) != GreetingView::Pending,
    ensures
        greeting(users, d + rest, buffer_size) == greeting(users, d, buffer_size),
{
    assert((d + rest).take(8) =~= d.take(8));
    if d.len() >= 32 {
        assert((d + rest).take(32) =~= d.take(32));
    }
}

/// Who sends the digest of a user's password is let in under the name of a user with that
/// password.
pub proof fn password_is_accepted(users: Seq<UserView>, i: int, padding: Seq<u8>, rest: Seq<u8>)
    requires
        0 <= i < users.len(),
        users[i].password_hash.len() == 32,
        padding.len() <= 32768,
    ensures
        ({
            let d = users[i].password_hash + util::be16_bytes(padding.len() as u16) + padding + rest;
            greeting(users, d, 32768) matches GreetingView::Accepted(name, end) && {
                &&& end == 34 + padding.len()
                &&& has_user(users, name, users[i].password_hash)
            }
        }),
{
    let hash = users[i].password_hash;
    let d = hash + util::be16_bytes(padding.len() as u16) + padding + rest;
    assert(d.take(32) =~= hash);
    assert(d.take(8) =~= hash.take(8));
    assert(users[i].password_hash.take(8) == d.take(8));
    lemma_user_with(users, hash, i);
    lemma_user_has(users, hash);
    util::be16_round_trip(padding.len() as u16);
    assert(d[32] == util::be16_bytes(padding.len() as u16)[0]);
    assert(d[33] == util::be16_bytes(padding.len() as u16)[1]);
}

/// Nobody else is let in: who is has sent the digest of the password of a user of that name.
pub proof fn accepted_has_password(users: Seq<UserView>, d: Seq<u8>, buffer_size: nat)
    ensures
        greeting(users, d, buffer_size) matches GreetingView::Accepted(name, end) ==> has_user(
            users,
            name,
            d.take(32),
        ),
{
    lemma_user_has(users, d.take(32));
}

/// Whether some user has a name and a password digest.
pub open spec fn has_user(users: Seq<UserView>, name: Seq<char>, hash: Seq<u8>) -> bool {
    exists|k: int|
        0 <= k < users.len() && (#[trigger] users[k]).name == name && users[k].password_hash == hash
}

/// Who is found is a user.
proof fn lemma_user_has(users: Seq<UserView>, hash: Seq<u8>)
    ensures
        user_with(users, hash) matches Some(name) ==> has_user(users, name, hash),
    decreases users.len(),
{
    if users.len() > 0 {
        if users.last().password_hash == hash {
            assert(users[users.len() - 1].name == users.last().name);
        } else {
            let front = users.drop_last();
            lemma_user_has(front, hash);
            if user_with(users, hash) is Some {
                let name = user_with(users, hash)->0;
                let k = choose|k: int|
                    0 <= k < front.len() && (#[trigger] front[k]).name == name
                        && front[k].password_hash == hash;
                assert(users[k] == front[k]);
            }
        }
    }
}

/// A digest that some user has is found.
proof fn lemma_user_with(users: Seq<UserView>, hash: Seq<u8>, i: int)
    requires
        0 <= i < users.len(),
        users[i].password_hash == hash,
    ensures
        user_with(users, hash) is Some,
    decreases users.len(),
{
    if users.last().password_hash != hash {
        assert(users.drop_last()[i] == users[i]);
        lemma_user_with(users.drop_last(), hash, i);
    }
}

/// Each user keeps the name and has the digest of the password, in the order of the list.
pub proof fn users_are_listed(users: Seq<(String, String)>, i: int)
    requires
        0 <= i < users.len(),
    ensures
        users_of(users).len() == users.len(),
        users_of(users)[i].name == users[i].0@,
        users_of(users)[i].password_hash == sha256_of(encode_utf8(users[i].1@)),
{
}

/// Of users with one password the last counts; who has the password of none is nobody.
pub proof fn last_user_counts(users: Seq<UserView>, hash: Seq<u8>, last: int)
    requires
        -1 <= last < users.len(),
        forall|i: int| last < i < users.len() ==> (#[trigger] users[i]).password_hash != hash,
        last >= 0 ==> users[last].password_hash == hash,
    ensures
        user_with(users, hash) == (if last >= 0 {
            Some(users[last].name)
        } else {
            None
        }),
    decreases users.len(),
{
    if users.len() > 0 && last < users.len() - 1 {
        let front = users.drop_last();
        assert(users[users.len() - 1].password_hash != hash);
        assert forall|i: int| last < i < front.len() implies (#[trigger] front[i]).password_hash
            != hash by {
            assert(front[i] == users[i]);
        }
        last_user_counts(front, hash, last);
    }
}

/// A greeting is the digest of a user's password, the length of the padding in two bytes, and the
/// padding. The client is let in under the name of the last user with the password, what follows
/// is none of the greeting, and before its last byte it is not settled. Padding that the buffer
/// cannot hold is refused as soon as its length is known.
pub proof fn greetings_are_read(
    users: Seq<UserView>,
    last: int,
    padding: Seq<u8>,
    rest: Seq<u8>,
    buffer_size: nat,
    n: int,
)
    requires
        0 <= last < users.len(),
        users[last].password_hash.len() == 32,
        forall|i: int|
            last < i < users.len() ==> (#[trigger] users[i]).password_hash
                != users[last].password_hash,
        padding.len() <= 65535,
        0 <= n < 34 + padding.len(),
    ensures
        ({
            let d = users[last].password_hash + util::be16_bytes(padding.len() as u16) + padding;
            &&& padding.len() <= buffer_size ==> greeting(users, d + rest, buffer_size)
                == GreetingView::Accepted(users[last].name, 34 + padding.len() as int)
            &&& padding.len() <= buffer_size ==> greeting(users, d.take(n), buffer_size)
                == GreetingView::Pending
            &&& padding.len() > buffer_size && n < 34 ==> greeting(users, d.take(n), buffer_size)
                == GreetingView::Pending
            &&& padding.len() > buffer_size && n >= 34 ==> greeting(users, d.take(n), buffer_size)
                == GreetingView::Failed(Error::ExceedsBuffer)
        }),
{
    let hash = users[last].password_hash;
    let len = util::be16_bytes(padding.len() as u16);
    let d = hash + len + padding;
    let part = d.take(n);
    util::big_endian_order(len[0], len[1], 0, 0, padding.len() as u16, 0);
    last_user_counts(users, hash, last);
    assert(d[32] == len[0] && d[33] == len[1]);
    assert((d + rest).take(32) =~= hash);
    assert((d + rest).take(8) =~= hash.take(8));
    assert(users[last].password_hash.take(8) == (d + rest).take(8));
    if n >= 8 {
        assert(part.take(8) =~= hash.take(8));
        assert(users[last].password_hash.take(8) == part.take(8));
    }
    if n >= 32 {
        assert(part.take(32) =~= hash);
    }
}

/// Who starts with eight bytes that no user's digest starts with is refused at once, and who goes
/// on with a digest that is no user's is refused with its last byte, whatever follows. Nobody is
/// refused before.
pub proof fn strangers_are_refused(users: Seq<UserView>, d: Seq<u8>, buffer_size: nat)
    ensures
        d.len() < 8 ==> greeting(users, d, buffer_size) == GreetingView::Pending,
        d.len() >= 8 && (forall|i: int|
            0 <= i < users.len() ==> (#[trigger] users[i]).password_hash.take(8) != d.take(8))
            ==> greeting(users, d, buffer_size) == GreetingView::Refused(Error::PrefixMismatch),
        8 <= d.len() < 32 && (exists|i: int|
            0 <= i < users.len() && (#[trigger] users[i]).password_hash.take(8) == d.take(8))
            ==> greeting(users, d, buffer_size) == GreetingView::Pending,
        d.len() >= 32 && (exists|i: int|
            0 <= i < users.len() && (#[trigger] users[i]).password_hash.take(8) == d.take(8)) && (
        forall|i: int| 0 <= i < users.len() ==> (#[trigger] users[i]).password_hash != d.take(32))
            ==> greeting(users, d, buffer_size) == GreetingView::Refused(
            Error::AuthenticationFailed,
        ),
{
    if d.len() >= 8 && (exists|i: int|
        0 <= i < users.len() && (#[trigger] users[i]).password_hash.take(8) == d.take(8)) {
        let i = choose|i: int|
            0 <= i < users.len() && (#[trigger] users[i]).password_hash.take(8) == d.take(8);
        assert(users[i].password_hash.take(8) == d.take(8));
        assert(known_prefix(users, d.take(8)));
    }
    if forall|i: int| 0 <= i < users.len() ==> (#[trigger] users[i]).password_hash != d.take(32) {
        last_user_counts(users, d.take(32), -1);
    }
}

// ============================= handshake =============================

/// Who may connect, and where others are sent.
pub struct AnyTlsServerHandler {
    users: Vec<User>,
    padding: Arc<PaddingFactory>,
    udp_enabled: bool,
    fallback: Option<NetLocation>,
}

/// What a handler does with a client.
pub enum HandshakeStep {
    /// More bytes are needed.
    NeedBytes,
    /// The client is let in under a name. What came behind its greeting belongs to the
    /// session.
    Accepted(String, Option<Vec<u8>>),
    /// The client is forwarded, with everything that it has sent.
    Fallback(NetLocation),
}

impl AnyTlsServerHandler {
    /// The padding is well-formed, and digests have their length.
    pub closed spec fn wf(self) -> bool {
        &&& self.padding.wf()
        &&& forall|i: int| 0 <= i < self.users@.len() ==> (#[trigger] self.users@[i])@.password_hash.len() == 32
    }

    /// The users.
    pub closed spec fn known_users(self) -> Seq<UserView> {
        self.users@.map_values(|u: User| u@)
    }

    /// Where clients are forwarded that are none.
    pub closed spec fn fallback_location(self) -> Option<NetLocationView> {
        match self.fallback {
            Some(location) => Some(location@),
            None => None,
        }
    }

    /// The padding scheme.
    pub closed spec fn scheme(self) -> Seq<u8> {
        self.padding.raw()
    }

    /// Whether UDP over TCP is served.
    pub closed spec fn udp(self) -> bool {
        self.udp_enabled
    }

    /// A handler for some users, (name, password) pairs.
    pub fn new(
        users: Vec<(String, String)>,
        padding: Arc<PaddingFactory>,
        udp_enabled: bool,
        fallback: Option<NetLocation>,
    ) -> (r: Self)
        requires
            padding.wf(),
        ensures
            r.wf(),
            r.known_users() == users_of(users@),
            r.scheme() == padding.raw(),
            r.udp() == udp_enabled,
            r.fallback_location() == (match fallback {
                Some(location) => Some(location@),
                None => None,
            }),
    {
        let mut known: Vec<User> = Vec::new();
        let n: usize = users.len();
        let mut i: usize = 0;
        while i < n
            invariant
                i <= n,
                n == users@.len(),
                known@.len() == i,
                forall|j: int|
                    0 <= j < i ==> {
                        &&& (#[trigger] known@[j])@ == users_of(users@)[j]
                        &&& known@[j]@.password_hash.len() == 32
                    },
            decreases n - i,
        {
            let password_hash = sha256_digest(users[i].1.as_str().as_bytes());
            known.push(User { password_hash, name: users[i].0.clone() });
            i = i + 1;
        }
        let r = AnyTlsServerHandler { users: known, padding, udp_enabled, fallback };
        assert(r.known_users() =~= users_of(users@));
        r
    }

    /// The padding of sessions.
    pub fn padding(&self) -> (r: &Arc<PaddingFactory>)
        requires
            self.wf(),
        ensures
            r.wf(),
            r.raw() == self.scheme(),
    {
        &self.padding
    }

    /// Whether UDP over TCP is served.
    pub fn udp_enabled(&self) -> (r: bool)
        ensures
            r == self.udp(),
    {
        self.udp_enabled
    }

    fn has_prefix(&self, prefix: &[u8]) -> (r: bool)
        requires
            self.wf(),
        ensures
            r == known_prefix(self.known_users(), prefix@),
    {
        let n: usize = self.users.len();
        let mut i: usize = 0;
        while i < n
            invariant
                i <= n,
                n == self.users@.len(),
                self.wf(),
                forall|j: int|
                    0 <= j < i ==> #[trigger] self.known_users()[j].password_hash.take(8) != prefix@,
            decreases n - i,
        {
            assert(self.users@[i as int]@.password_hash.len() == 32);
            let start = slice_subrange(self.users[i].password_hash.as_slice(), 0, 8);
            assert(start@ =~= self.known_users()[i as int].password_hash.take(8));
            if text::same_bytes(start, prefix) {
                return true;
            }
            i = i + 1;
        }
        false
    }

    fn find_user(&self, hash: &[u8]) -> (r: Option<String>)
        ensures
            match r {
                Some(name) => user_with(self.known_users(), hash@) == Some(name@),
                None => user_with(self.known_users(), hash@) is None,
            },
    {
        let mut i: usize = self.users.len();
        let ghost all = self.known_users();
        assert(all.take(i as int) =~= all);
        while i > 0
            invariant
                i <= self.users@.len(),
                all == self.known_users(),
                all.len() == self.users@.len(),
                user_with(all, hash@) == user_with(all.take(i as int), hash@),
            decreases i,
        {
            let ghost part = all.take(i as int);
            assert(part.last() == self.users@[i - 1]@);
            assert(part.drop_last() =~= all.take(i - 1));
            if text::same_bytes(self.users[i - 1].password_hash.as_slice(), hash) {
                return Some(self.users[i - 1].name.clone());
            }
            i = i - 1;
        }
        assert(all.take(0) =~= Seq::<UserView>::empty());
        None
    }

    fn refuse(&self, reason: Error) -> (r: Result<HandshakeStep, Error>)
        ensures
            match self.fallback_location() {
                Some(location) => r matches Ok(HandshakeStep::Fallback(l)) && l@ == location,
                None => r == Err::<HandshakeStep, Error>(reason),
            },
    {
        match &self.fallback {
            Some(location) => Ok(HandshakeStep::Fallback(location.clone())),
            None => Err(reason),
        }
    }
}

/// The state of a handshake: the name of the client once its password is known, and the
/// length of its padding once that is known.
pub struct Handshake {
    user: Option<String>,
    padding_len: Option<u16>,
    consumed: Ghost<Seq<u8>>,
}

impl Handshake {
    /// The bytes of the greeting that were taken out of the reader.
    pub closed spec fn taken(self) -> Seq<u8> {
        self.consumed@
    }

    /// What was taken out says who the client is, and how long the padding is.
    pub closed spec fn wf(self, handler: AnyTlsServerHandler, buffer_size: nat) -> bool {
        let d = self.consumed@;
        match self.user {
            None => self.padding_len is None && d.len() == 0,
            Some(name) => {
                &&& d.len() >= 32
                &&& known_prefix(handler.known_users(), d.take(8))
                &&& user_with(handler.known_users(), d.take(32)) == Some(name@)
                &&& match self.padding_len {
                    None => d.len() == 32,
                    Some(len) => {
                        &&& d.len() == 34
                        &&& len == util::be16(d[32], d[33])
                        &&& len <= buffer_size
                    },
                }
            },
        }
    }

    /// Before the first byte.
    pub fn new(handler: &AnyTlsServerHandler, reader: &StreamReader) -> (r: Self)
        ensures
            r.taken() == Seq::<u8>::empty(),
            r.wf(*handler, reader.capacity()),
    {
        Handshake { user: None, padding_len: None, consumed: Ghost(Seq::empty()) }
    }

    /// Goes on with the handshake as far as the bytes in the reader allow. The bytes that were
    /// taken out and those that are there together decide.
    pub fn handle_connection(
        &mut self,
        handler: &AnyTlsServerHandler,
        reader: &mut StreamReader,
    ) -> (r: Result<HandshakeStep, Error>)
        requires
            handler.wf(),
            old(reader).wf(),
            old(reader).capacity() >= 34,
            old(self).wf(*handler, old(reader).capacity()),
        ensures
            final(reader).wf(),
            final(reader).capacity() == old(reader).capacity(),
            ({
                let d = old(self).taken() + old(reader).unread();
                match r {
                    Ok(HandshakeStep::NeedBytes) => {
                        &&& greeting(handler.known_users(), d, old(reader).capacity())
                            == GreetingView::Pending
                        &&& final(self).wf(*handler, final(reader).capacity())
                        &&& final(self).taken() + final(reader).unread() == d
                        &&& final(reader).unread().len() < final(reader).capacity()
                    },
                    Ok(HandshakeStep::Accepted(name, initial_data)) => {
                        &&& greeting(handler.known_users(), d, old(reader).capacity()) matches GreetingView::Accepted(
                            n,
                            end,
                        )
                        &&& name@ == n
                        &&& final(reader).unread() == d.skip(end)
                        &&& match initial_data {
                            Some(data) => data@.len() > 0 && data@ == d.skip(end),
                            None => d.len() == end,
                        }
                    },
                    Ok(HandshakeStep::Fallback(location)) => {
                        &&& greeting(handler.known_users(), d, old(reader).capacity()) is Refused
                        &&& handler.fallback_location() == Some(location@)
                        &&& final(reader).unread() == d
                    },
                    Err(e) => {
                        ||| greeting(handler.known_users(), d, old(reader).capacity())
                            == GreetingView::Failed(e)
                        ||| {
                            &&& greeting(handler.known_users(), d, old(reader).capacity())
                                == GreetingView::Refused(e)
                            &&& handler.fallback_location() is None
                        }
                    },
                }
            }),
    {
        let ghost d = self.taken() + reader.unread();
        let ghost users = handler.known_users();
        if self.user.is_none() {
            assert(d =~= reader.unread());
            let prefix_known: bool = match reader.peek_slice(8) {
                Ok(Some(prefix)) => handler.has_prefix(prefix),
                Ok(None) => {
                    return Ok(HandshakeStep::NeedBytes);
                },
                Err(e) => {
                    return Err(e);
                },
            };
            if !prefix_known {
                return handler.refuse(Error::PrefixMismatch);
            }
            let user: Option<String> = match reader.peek_slice(32) {
                Ok(Some(hash)) => handler.find_user(hash),
                Ok(None) => {
                    return Ok(HandshakeStep::NeedBytes);
                },
                Err(e) => {
                    return Err(e);
                },
            };
            match user {
                Some(name) => {
                    reader.consume(32);
                    self.user = Some(name);
                    self.consumed = Ghost(d.take(32));
                    proof {
                        assert(d.take(32).take(8) =~= d.take(8));
                        assert(d.take(32).take(32) =~= d.take(32));
                        assert(self.taken() + reader.unread() =~= d);
                    }
                },
                None => {
                    return handler.refuse(Error::AuthenticationFailed);
                },
            }
        }
        if self.padding_len.is_none() {
            let ghost before = self.taken();
            assert(d.take(8) =~= before.take(8));
            assert(d.take(32) =~= before.take(32));
            match reader.read_u16_be() {
                Some(len) => {
                    self.consumed = Ghost(d.take(34));
                    proof {
                        assert(d.take(34).take(8) =~= d.take(8));
                        assert(d.take(34).take(32) =~= d.take(32));
                        assert(self.taken() + reader.unread() =~= d);
                    }
                    proof {
                        stream_reader::unread_fits(*reader);
                    }
                    if len as usize > 0 {
                        match reader.peek_slice(len as usize) {
                            Err(e) => {
                                return Err(e);
                            },
                            _ => {},
                        }
                    }
                    self.padding_len = Some(len);
                },
                None => {
                    return Ok(HandshakeStep::NeedBytes);
                },
            }
        }
        let ghost before = self.taken();
        let ghost unread = reader.unread();
        assert(d =~= before + unread);
        assert(d.take(8) =~= before.take(8));
        assert(d.take(32) =~= before.take(32));
        assert(d[32] == before[32] && d[33] == before[33]);
        let len: usize = match self.padding_len {
            Some(len) => len as usize,
            None => 0,
        };
        if len > 0 {
            match reader.read_slice(len) {
                Ok(Some(_)) => {},
                Ok(None) => {
                    return Ok(HandshakeStep::NeedBytes);
                },
                Err(e) => {
                    return Err(e);
                },
            }
        }
        assert(len <= unread.len());
        assert(reader.unread() =~= d.skip(34 + len));
        let name = match &self.user {
            Some(name) => name.clone(),
            None => String::new(),
        };
        assert(user_with(users, d.take(32)) == Some(name@));
        Ok(HandshakeStep::Accepted(name, reader.unparsed_data_owned()))
    }
}

} // verus!
