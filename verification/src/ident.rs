//! Identifiers of devices, pools, objects and groups.

use vstd::prelude::*;
use vstd::std_specs::cmp::PartialEqSpecImpl;
use vstd::string::StringExecFns;

verus! {

/// The ID of a device, which also identifies the storage daemon for it.
///
/// Sixteen opaque bytes, generated once per daemon.
#[derive(Clone, Copy, Eq, Hash, Debug)]
pub struct DeviceId(pub [u8; 16]);

/// The ID for a group of objects.
///
/// Objects are assembled into groups by hashing their names. The group of an
/// object depends on the number of groups, which changes over time.
#[derive(Clone, Copy, PartialEq, Eq, Structural, Debug)]
pub struct GroupId(pub u32);

/// The name of a storage pool.
#[derive(Clone, Debug, PartialEq, Eq, Hash)]
pub struct PoolName(pub String);

/// The name of an object, which can be freely picked by clients.
#[derive(Clone, PartialEq, Eq, Hash, Debug)]
pub struct ObjectId(pub Vec<u8>);

impl View for DeviceId {
    type V = Seq<u8>;

    open spec fn view(&self) -> Seq<u8> {
        self.0@
    }
}

impl View for PoolName {
    type V = Seq<char>;

    open spec fn view(&self) -> Seq<char> {
        self.0@
    }
}

impl View for ObjectId {
    type V = Seq<u8>;

    open spec fn view(&self) -> Seq<u8> {
        self.0@
    }
}

impl PartialEq for DeviceId {
    fn eq(&self, other: &DeviceId) -> (r: bool) {
        let mut i: usize = 0;
        while i < 16
            invariant
                i <= 16,
                forall|j: int| 0 <= j < i ==> self.0@[j] == other.0@[j],
            decreases 16 - i,
        {
            if self.0[i] != other.0[i] {
                return false;
            }
            i += 1;
        }
        assert(self.0@ =~= other.0@);
        true
    }
}

impl PartialEqSpecImpl for DeviceId {
    open spec fn obeys_eq_spec() -> bool {
        true
    }

    open spec fn eq_spec(&self, other: &DeviceId) -> bool {
        self.0@ == other.0@
    }
}

/// Two device IDs with the same bytes are the same ID.
pub proof fn lemma_device_id_by_bytes(a: DeviceId, b: DeviceId)
    ensures
        (a@ == b@) <==> (a == b),
{
    if a@ == b@ {
        assert(a.0 =~= b.0);
    }
}

/// The hexadecimal digit for a number below sixteen.
pub open spec fn spec_hex_digit(n: u8) -> char {
    if n < 10 {
        (0x30 + n) as char
    } else {
        (0x61 + n - 10) as char
    }
}

/// The two hexadecimal digits of a byte.
pub open spec fn spec_hex_byte(b: u8) -> Seq<char> {
    seq![spec_hex_digit(b / 16), spec_hex_digit(b % 16)]
}

/// The hexadecimal digits of some bytes, with a colon between one byte and
/// the next.
pub open spec fn spec_hex_bytes(bytes: Seq<u8>) -> Seq<char>
    decreases bytes.len(),
{
    if bytes.len() == 0 {
        Seq::empty()
    } else if bytes.len() == 1 {
        spec_hex_byte(bytes[0])
    } else {
        spec_hex_bytes(bytes.drop_last()) + seq![':'] + spec_hex_byte(bytes.last())
    }
}

/// A device ID as it is shown to people.
pub open spec fn spec_device_id_string(id: DeviceId) -> Seq<char> {
    "DeviceId("@ + spec_hex_bytes(id@) + ")"@
}

/// The hexadecimal digit for a number below sixteen, as a string.
fn hex_digit(n: u8) -> (r: &'static str)
    requires
        n < 16,
    ensures
        r@ == seq![spec_hex_digit(n)],
{
    proof {
        reveal_strlit("0");
        reveal_strlit("1");
        reveal_strlit("2");
        reveal_strlit("3");
        reveal_strlit("4");
        reveal_strlit("5");
        reveal_strlit("6");
        reveal_strlit("7");
        reveal_strlit("8");
        reveal_strlit("9");
        reveal_strlit("a");
        reveal_strlit("b");
        reveal_strlit("c");
        reveal_strlit("d");
        reveal_strlit("e");
        reveal_strlit("f");
    }
    let digit = if n == 0 {
        "0"
    } else if n == 1 {
        "1"
    } else if n == 2 {
        "2"
    } else if n == 3 {
        "3"
    } else if n == 4 {
        "4"
    } else if n == 5 {
        "5"
    } else if n == 6 {
        "6"
    } else if n == 7 {
        "7"
    } else if n == 8 {
        "8"
    } else if n == 9 {
        "9"
    } else if n == 10 {
        "a"
    } else if n == 11 {
        "b"
    } else if n == 12 {
        "c"
    } else if n == 13 {
        "d"
    } else if n == 14 {
        "e"
    } else {
        "f"
    };
    assert(digit@ =~= seq![spec_hex_digit(n)]);
    digit
}

/// Appends the two hexadecimal digits of a byte to a string.
pub(crate) fn push_hex_byte(out: &mut String, b: u8)
    ensures
        final(out)@ == old(out)@ + spec_hex_byte(b),
{
    out.append(hex_digit(b / 16));
    out.append(hex_digit(b % 16));
    assert(out@ =~= old(out)@ + spec_hex_byte(b));
}

impl DeviceId {
    /// Shows the ID to people: its bytes in hexadecimal, with colons between
    /// them.
    pub fn debug_string(&self) -> (r: String)
        ensures
            r@ == spec_device_id_string(*self),
    {
        let mut out = String::from_str("DeviceId(");
        let mut i: usize = 0;
        assert(self.0@.subrange(0, 0) =~= Seq::<u8>::empty());
        while i < 16
            invariant
                i <= 16,
                out@ == "DeviceId("@ + spec_hex_bytes(self.0@.subrange(0, i as int)),
            decreases 16 - i,
        {
            let ghost before = self.0@.subrange(0, i as int);
            let ghost after = self.0@.subrange(0, i + 1);
            proof {
                assert(after.drop_last() =~= before);
                assert(after.last() == self.0@[i as int]);
            }
            if i > 0 {
                proof {
                    reveal_strlit(":");
                }
                out.append(":");
                assert(":"@ =~= seq![':']);
            }
            push_hex_byte(&mut out, self.0[i]);
            assert(out@ =~= "DeviceId("@ + spec_hex_bytes(after));
            i += 1;
        }
        assert(self.0@.subrange(0, 16) =~= self.0@);
        out.append(")");
        out
    }
}

} // verus!
