//! The lines that the server writes to its clients.
//!
//! Each line is given twice: as a spec function, which contracts speak of,
//! and as the function that builds it. None ends in a line feed: framing is
//! the codec's part.

use vstd::prelude::*;
use vstd::string::StringSliceAdditionalSpecFns;
use crate::text::{append_bytes, to_bytes};
use crate::codec::views;

verus! {

/// `Hello, <name>!`, sent to a client once it is registered.
pub open spec fn greeting(name: Seq<u8>) -> Seq<u8> {
    "Hello, ".spec_bytes() + name + "!".spec_bytes()
}

/// `username unavailable`, sent to a client whose name was refused.
pub open spec fn username_unavailable() -> Seq<u8> {
    "username unavailable".spec_bytes()
}

/// `User not found`, sent to the sender of a direct message to nobody.
pub open spec fn user_not_found() -> Seq<u8> {
    "User not found".spec_bytes()
}

/// `<sender>: <text>`, the envelope of a broadcast.
pub open spec fn broadcast_line(sender: Seq<u8>, text: Seq<u8>) -> Seq<u8> {
    sender + ": ".spec_bytes() + text
}

/// `*pm from <sender>: <text>`, the envelope of a direct message.
pub open spec fn private_line(sender: Seq<u8>, text: Seq<u8>) -> Seq<u8> {
    "*pm from ".spec_bytes() + sender + ": ".spec_bytes() + text
}

/// The names, in order, with `, ` between each two.
pub open spec fn comma_joined(names: Seq<Seq<u8>>) -> Seq<u8>
    decreases names.len(),
{
    if names.len() == 0 {
        Seq::empty()
    } else if names.len() == 1 {
        names[0]
    } else {
        comma_joined(names.drop_last()) + ", ".spec_bytes() + names.last()
    }
}

/// `Connected clients: <name>, <name>, ...`, the answer to a directory query.
pub open spec fn listing(names: Seq<Seq<u8>>) -> Seq<u8> {
    "Connected clients: ".spec_bytes() + comma_joined(names)
}

/// Builds [`greeting`].
pub fn greeting_line(name: &[u8]) -> (out: Vec<u8>)
    ensures
        out@ == greeting(name@),
{
    let mut out = "Hello, ".as_bytes_vec();
    append_bytes(&mut out, name);
    append_bytes(&mut out, "!".as_bytes());
    out
}

/// Builds [`username_unavailable`].
pub fn username_unavailable_line() -> (out: Vec<u8>)
    ensures
        out@ == username_unavailable(),
{
    "username unavailable".as_bytes_vec()
}

/// Builds [`user_not_found`].
pub fn user_not_found_line() -> (out: Vec<u8>)
    ensures
        out@ == user_not_found(),
{
    "User not found".as_bytes_vec()
}

/// Builds [`broadcast_line`].
pub fn broadcast_envelope(sender: &[u8], text: &[u8]) -> (out: Vec<u8>)
    ensures
        out@ == broadcast_line(sender@, text@),
{
    let mut out = to_bytes(sender);
    append_bytes(&mut out, ": ".as_bytes());
    append_bytes(&mut out, text);
    out
}

/// Builds [`private_line`].
pub fn private_envelope(sender: &[u8], text: &[u8]) -> (out: Vec<u8>)
    ensures
        out@ == private_line(sender@, text@),
{
    let mut out = "*pm from ".as_bytes_vec();
    append_bytes(&mut out, sender);
    append_bytes(&mut out, ": ".as_bytes());
    append_bytes(&mut out, text);
    out
}

/// Builds [`listing`].
pub fn listing_line(names: &Vec<Vec<u8>>) -> (out: Vec<u8>)
    ensures
        out@ == listing(views(names@)),
{
    let mut out = "Connected clients: ".as_bytes_vec();
    let ghost all = views(names@);
    let mut i: usize = 0;
    assert(all.take(0) =~= Seq::<Seq<u8>>::empty());
    assert(out@ =~= "Connected clients: ".spec_bytes() + comma_joined(all.take(0)));
    while i < names.len()
        invariant
            i <= names@.len(),
            all == views(names@),
            out@ == "Connected clients: ".spec_bytes() + comma_joined(all.take(i as int)),
        decreases names@.len() - i,
    {
        let ghost before = out@;
        let ghost upto = all.take(i + 1);
        assert(upto.drop_last() =~= all.take(i as int));
        assert(upto.last() == names@[i as int]@);
        if i > 0 {
            append_bytes(&mut out, ", ".as_bytes());
        }
        append_bytes(&mut out, names[i].as_slice());
        assert(out@ =~= "Connected clients: ".spec_bytes() + comma_joined(upto));
        i += 1;
    }
    assert(all.take(i as int) =~= all);
    out
}

} // verus!
