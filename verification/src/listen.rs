//! Sockets handed over by systemd socket activation.

use vstd::prelude::*;
use crate::text;

verus! {

/// The first descriptor systemd passes; the protocol fixes it at 3.
pub const SD_LISTEN_FDS_START: i32 = 3;

/// What the environment says about inherited sockets.
pub enum Activation {
    /// The server binds its own socket.
    NotActivated,
    /// One socket is at the first descriptor.
    Inherited,
    Refused(String),
}

/// The variables are meant for this process: a child may have inherited them by
/// accident.
pub open spec fn for_us(listen_pid: Option<Seq<char>>, own_pid: u32) -> bool {
    listen_pid is Some && text::parsed_unsigned(listen_pid->0, u32::MAX as nat) == Some(
        own_pid as nat,
    )
}

/// How many sockets were passed; none that can be read is none.
pub open spec fn socket_count(listen_fds: Option<Seq<char>>) -> nat {
    match listen_fds {
        Some(s) => match text::parsed_unsigned(s, u64::MAX as nat) {
            Some(n) => n,
            None => 0,
        },
        None => 0,
    }
}

pub open spec fn opt_str(s: Option<&str>) -> Option<Seq<char>> {
    match s {
        Some(t) => Some(t@),
        None => None,
    }
}

/// Decides from `LISTEN_PID` and `LISTEN_FDS` whether a socket was passed in.
pub fn activation(listen_pid: Option<&str>, listen_fds: Option<&str>, own_pid: u32) -> (r: Activation)
    ensures
        if !for_us(opt_str(listen_pid), own_pid) {
            r is NotActivated
        } else if socket_count(opt_str(listen_fds)) == 1 {
            r is Inherited
        } else {
            r is Refused && r->Refused_0@ == "systemd passed "@ + text::decimal(
                socket_count(opt_str(listen_fds)),
            ) + " sockets; exactly one ListenStream= is supported"@
        },
{
    let pid: Option<u64> = match listen_pid {
        Some(s) => text::parse_unsigned(s, u32::MAX as u64),
        None => None,
    };
    match pid {
        Some(n) => if n != own_pid as u64 {
            return Activation::NotActivated;
        },
        None => {
            return Activation::NotActivated;
        },
    }
    let count: u64 = match listen_fds {
        Some(s) => match text::parse_unsigned(s, u64::MAX) {
            Some(n) => n,
            None => 0,
        },
        None => 0,
    };
    if count != 1 {
        let mut message = "systemd passed ".to_string();
        let digits = text::decimal_of(count);
        message.append(digits.as_str());
        message.append(" sockets; exactly one ListenStream= is supported");
        return Activation::Refused(message);
    }
    Activation::Inherited
}

/// The address family of a socket.
#[derive(Clone, Copy, PartialEq, Eq, Debug, Structural)]
pub enum Family {
    Inet,
    Unix,
    Other(i32),
}

/// The listener a socket becomes.
#[derive(Clone, Copy, PartialEq, Eq, Debug, Structural)]
pub enum Listener {
    Tcp,
    Unix,
}

/// What an inherited socket becomes: a listening stream socket of a family the
/// server speaks, or why it cannot be used.
pub fn classify_socket(is_stream: bool, listening: bool, family: Family) -> (r: Result<
    Listener,
    String,
>)
    ensures
        if !is_stream {
            r is Err && r->Err_0@
                == "inherited socket is not a stream socket; use ListenStream="@
        } else if !listening {
            r is Err && r->Err_0@
                == "inherited socket is not listening; the socket unit needs Accept=no"@
        } else {
            match family {
                Family::Inet => r == Ok::<Listener, String>(Listener::Tcp),
                Family::Unix => r == Ok::<Listener, String>(Listener::Unix),
                Family::Other(n) => r is Err && r->Err_0@
                    == "inherited socket has unsupported family "@ + text::signed_decimal(n as int),
            }
        },
{
    if !is_stream {
        return Err("inherited socket is not a stream socket; use ListenStream=".to_string());
    }
    if !listening {
        return Err(
            "inherited socket is not listening; the socket unit needs Accept=no".to_string(),
        );
    }
    match family {
        Family::Inet => Ok(Listener::Tcp),
        Family::Unix => Ok(Listener::Unix),
        Family::Other(n) => {
            let digits = text::signed_decimal_of(n as i64);
            Err(text::join2("inherited socket has unsupported family ", digits.as_str()))
        },
    }
}

/// Sockets are for the process whose id is written there, and for no other; the first
/// one is at descriptor 3.
pub proof fn law_sockets_are_for_the_process_named(pid: u32, own_pid: u32)
    ensures
        for_us(Some(text::decimal(pid as nat)), own_pid) <==> pid == own_pid,
        !for_us(None, own_pid),
        SD_LISTEN_FDS_START == 3,
{
    text::law_decimal_reads_back(pid as int);
}

/// The number of sockets is the one that is written; where none is, there are none.
pub proof fn law_sockets_are_counted(n: u64)
    ensures
        socket_count(Some(text::decimal(n as nat))) == n,
        socket_count(None) == 0,
        socket_count(Some(Seq::empty())) == 0,
{
    text::law_decimal_reads_back(n as int);
    text::law_numbers_are_read_from_digits(Seq::empty(), 'a', u64::MAX as nat);
}

} // verus!
