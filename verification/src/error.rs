//! The errors of the library, and the class of I/O error that each stands for.

use vstd::prelude::*;

verus! {

/// The class of an error, as callers that speak of I/O errors see it.
#[derive(Debug, Clone, Copy, PartialEq, Eq, Structural)]
pub enum ErrorKind {
    BrokenPipe,
    ConnectionAborted,
    InvalidData,
    InvalidInput,
    PermissionDenied,
    UnexpectedEof,
    Unsupported,
    WriteZero,
    Other,
}

/// Everything that the protocols can refuse.
#[derive(Debug, Clone, Copy, PartialEq, Eq, Structural)]
pub enum Error {
    /// A location whose port is not a number and whose address is not IPv6.
    InvalidLocation,
    /// A location without a port, where none was given to fall back on.
    MissingPort,
    /// More bytes were asked for than the read buffer can ever hold.
    ExceedsBuffer,
    /// The read buffer is full and nothing was consumed.
    CacheFull,
    /// The peer closed the connection where more bytes were due.
    EofWhileReading,
    /// A packet address of an unknown type.
    UnknownAddressType(u8),
    /// A domain name that is not UTF-8.
    InvalidDomain,
    /// The read buffer of a packet stream is full without one whole packet.
    PacketBufferFull,
    /// A packet that does not fit into one frame.
    FrameTooLarge,
    /// A message longer than its length prefix can say.
    MessageTooLarge,
    /// A message longer than the buffer that was offered for it.
    OutputTooSmall,
    /// The peer closed the connection in the middle of a message.
    EofInMessage,
    /// The connection accepted no byte.
    WriteZero,
    /// A frame whose command byte is not assigned.
    UnknownCommand(u8),
    /// A destination address of an unknown type.
    UnknownDestinationType(u8),
    /// A destination that is not UTF-8.
    InvalidDestinationEncoding,
    /// A stream was opened before the client sent its settings.
    MissingClientSettings,
    /// The peer reported a fatal condition.
    AlertReceived,
    /// The stream is closed.
    StreamClosed,
    /// The stream is being shut down.
    StreamShuttingDown,
    /// The session is closed.
    SessionClosed,
    /// The channel to the session is closed.
    ChannelClosed,
    /// UDP was asked for where it is switched off.
    UdpDisabled,
    /// The first bytes match no user.
    PrefixMismatch,
    /// The password hash matches no user.
    AuthenticationFailed,
    /// A padding scheme without a `stop` entry.
    MissingStop,
    /// A padding scheme whose `stop` entry is not a number.
    InvalidStop,
    /// A value that needs more than 62 bits.
    VarintTooLarge,
    /// The peer takes no datagrams.
    DatagramsUnsupported,
    /// A TCP request frame that starts with another frame type.
    InvalidRequestId,
    /// An address that is longer than the protocol allows.
    InvalidAddressLength,
    /// An address that is not UTF-8.
    InvalidAddressEncoding,
    /// More padding than the protocol allows.
    InvalidPaddingLength,
    /// A request to another URI than the authentication endpoint.
    UnexpectedUri,
    /// A request with another method than `POST`.
    UnexpectedMethod,
    /// A request without the authentication header.
    MissingAuthHeader,
    /// An authentication header that is not printable ASCII.
    InvalidAuthHeader,
    /// The wrong password.
    IncorrectPassword,
    /// The client closed the connection before it authenticated.
    NoStreams,
    /// A hostname that resolves to nothing.
    NoAddresses,
    /// A certificate without a key, or a key without a certificate.
    IncompleteTlsFiles,
    /// A certificate file that is not PEM.
    UnreadableCertificates,
    /// A certificate file without a certificate.
    NoCertificates,
    /// A key file that is not PEM.
    UnreadableKey,
    /// A key file without a private key.
    NoPrivateKey,
    /// A certificate that could not be made.
    SelfSigningFailed,
}

impl Error {
    /// The class that each error belongs to.
    pub open spec fn spec_kind(self) -> ErrorKind {
        match self {
            Error::ExceedsBuffer => ErrorKind::InvalidInput,
            Error::CacheFull => ErrorKind::ConnectionAborted,
            Error::EofWhileReading => ErrorKind::ConnectionAborted,
            Error::MessageTooLarge => ErrorKind::InvalidInput,
            Error::EofInMessage => ErrorKind::UnexpectedEof,
            Error::WriteZero => ErrorKind::WriteZero,
            Error::UnknownCommand(_) => ErrorKind::InvalidData,
            Error::UnknownDestinationType(_) => ErrorKind::InvalidInput,
            Error::InvalidDestinationEncoding => ErrorKind::InvalidData,
            Error::MissingClientSettings => ErrorKind::InvalidData,
            Error::StreamClosed => ErrorKind::BrokenPipe,
            Error::StreamShuttingDown => ErrorKind::BrokenPipe,
            Error::SessionClosed => ErrorKind::BrokenPipe,
            Error::ChannelClosed => ErrorKind::BrokenPipe,
            Error::UdpDisabled => ErrorKind::Unsupported,
            Error::PrefixMismatch => ErrorKind::PermissionDenied,
            Error::AuthenticationFailed => ErrorKind::PermissionDenied,
            Error::NoStreams => ErrorKind::UnexpectedEof,
            _ => ErrorKind::Other,
        }
    }

    /// The class of this error.
    pub fn kind(&self) -> (kind: ErrorKind)
        ensures
            kind == self.spec_kind(),
    {
        match self {
            Error::ExceedsBuffer => ErrorKind::InvalidInput,
            Error::CacheFull => ErrorKind::ConnectionAborted,
            Error::EofWhileReading => ErrorKind::ConnectionAborted,
            Error::MessageTooLarge => ErrorKind::InvalidInput,
            Error::EofInMessage => ErrorKind::UnexpectedEof,
            Error::WriteZero => ErrorKind::WriteZero,
            Error::UnknownCommand(_) => ErrorKind::InvalidData,
            Error::UnknownDestinationType(_) => ErrorKind::InvalidInput,
            Error::InvalidDestinationEncoding => ErrorKind::InvalidData,
            Error::MissingClientSettings => ErrorKind::InvalidData,
            Error::StreamClosed => ErrorKind::BrokenPipe,
            Error::StreamShuttingDown => ErrorKind::BrokenPipe,
            Error::SessionClosed => ErrorKind::BrokenPipe,
            Error::ChannelClosed => ErrorKind::BrokenPipe,
            Error::UdpDisabled => ErrorKind::Unsupported,
            Error::PrefixMismatch => ErrorKind::PermissionDenied,
            Error::AuthenticationFailed => ErrorKind::PermissionDenied,
            Error::NoStreams => ErrorKind::UnexpectedEof,
            _ => ErrorKind::Other,
        }
    }
}

/// Which class of I/O error each error stands for.
pub proof fn errors_have_their_kinds(b: u8, e: Error)
    ensures
        Error::ExceedsBuffer.spec_kind() == ErrorKind::InvalidInput,
        Error::MessageTooLarge.spec_kind() == ErrorKind::InvalidInput,
        Error::UnknownDestinationType(b).spec_kind() == ErrorKind::InvalidInput,
        Error::CacheFull.spec_kind() == ErrorKind::ConnectionAborted,
        Error::EofWhileReading.spec_kind() == ErrorKind::ConnectionAborted,
        Error::EofInMessage.spec_kind() == ErrorKind::UnexpectedEof,
        Error::NoStreams.spec_kind() == ErrorKind::UnexpectedEof,
        Error::WriteZero.spec_kind() == ErrorKind::WriteZero,
        Error::UnknownCommand(b).spec_kind() == ErrorKind::InvalidData,
        Error::InvalidDestinationEncoding.spec_kind() == ErrorKind::InvalidData,
        Error::MissingClientSettings.spec_kind() == ErrorKind::InvalidData,
        Error::UdpDisabled.spec_kind() == ErrorKind::Unsupported,
        e.spec_kind() == ErrorKind::BrokenPipe <==> e is StreamClosed || e is StreamShuttingDown
            || e is SessionClosed || e is ChannelClosed,
        e.spec_kind() == ErrorKind::PermissionDenied <==> e is PrefixMismatch
            || e is AuthenticationFailed,
        e is InvalidLocation || e is MissingPort || e is UnknownAddressType || e is InvalidDomain
            || e is PacketBufferFull || e is FrameTooLarge || e is OutputTooSmall
            || e is AlertReceived || e is MissingStop || e is InvalidStop || e is VarintTooLarge
            || e is DatagramsUnsupported ==> e.spec_kind() == ErrorKind::Other,
        e is InvalidRequestId || e is InvalidAddressLength || e is InvalidAddressEncoding
            || e is InvalidPaddingLength || e is UnexpectedUri || e is UnexpectedMethod
            || e is MissingAuthHeader || e is InvalidAuthHeader || e is IncorrectPassword
            || e is NoAddresses || e is IncompleteTlsFiles || e is UnreadableCertificates
            || e is NoCertificates || e is UnreadableKey || e is NoPrivateKey
            || e is SelfSigningFailed ==> e.spec_kind() == ErrorKind::Other,
{
}

} // verus!
