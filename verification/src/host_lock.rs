//! Locks shared by every process on the host: their names, and how long to try
//! for one.

use vstd::prelude::*;
use vstd::string::*;

verus! {

/// How often a held lock is tried again, in nanoseconds.
pub const POLL: u64 = 20_000_000;

/// The identity of a HID node, as the HID backend spells it.
#[derive(Debug, PartialEq, Eq)]
pub struct NodeId {
    name: String,
}

impl NodeId {
    /// How the backend spells the node.
    pub closed spec fn spelling(self) -> Seq<char> {
        self.name@
    }
}

impl From<String> for NodeId {
    fn from(name: String) -> (node: NodeId) {
        NodeId { name }
    }
}

impl vstd::std_specs::convert::FromSpecImpl<String> for NodeId {
    open spec fn obeys_from_spec() -> bool {
        true
    }

    closed spec fn from_spec(name: String) -> NodeId {
        NodeId { name }
    }
}

/// A node is spelled as it was named.
pub proof fn lemma_spelling(name: String)
    ensures
        <NodeId as vstd::std_specs::convert::FromSpec<String>>::from_spec(name).spelling() == name@,
{
}

/// Offset basis of the 64-bit FNV-1a hash.
pub const FNV_OFFSET: u64 = 0xcbf2_9ce4_8422_2325;

/// Prime of the 64-bit FNV-1a hash.
pub const FNV_PRIME: u64 = 0x0100_0000_01b3;

/// The 64-bit FNV-1a hash: the same in every build.
pub open spec fn fnv1a(bytes: Seq<u8>) -> u64
    decreases bytes.len(),
{
    if bytes.len() == 0 {
        FNV_OFFSET
    } else {
        (fnv1a(bytes.drop_last()) ^ (bytes.last() as u64)).wrapping_mul(FNV_PRIME)
    }
}

/// One hexadecimal digit.
pub open spec fn hex_char(digit: int) -> char {
    if digit == 0 {
        '0'
    } else if digit == 1 {
        '1'
    } else if digit == 2 {
        '2'
    } else if digit == 3 {
        '3'
    } else if digit == 4 {
        '4'
    } else if digit == 5 {
        '5'
    } else if digit == 6 {
        '6'
    } else if digit == 7 {
        '7'
    } else if digit == 8 {
        '8'
    } else if digit == 9 {
        '9'
    } else if digit == 10 {
        'a'
    } else if digit == 11 {
        'b'
    } else if digit == 12 {
        'c'
    } else if digit == 13 {
        'd'
    } else if digit == 14 {
        'e'
    } else {
        'f'
    }
}

/// The last `n` hexadecimal digits of a number.
pub open spec fn hex(value: int, n: nat) -> Seq<char>
    decreases n,
{
    if n == 0 {
        Seq::empty()
    } else {
        hex(value / 16, (n - 1) as nat).push(hex_char(value % 16))
    }
}

/// The name of a node's lock.
pub open spec fn lock_name(node: Seq<char>) -> Seq<char> {
    "node-"@ + hex(fnv1a(vstd::utf8::encode_utf8(node)) as int, 16)
}

fn hex_digit(digit: u64) -> (text: &'static str)
    requires
        digit < 16,
    ensures
        text@ == seq![hex_char(digit as int)],
{
    proof {
        reveal_strlit("0");
        reveal_strlit("1");
        reveal_strlit("2");
        reveal_strlit("3");
        reveal_strlit("4");
        reveal_strlit("5");
        reveal_strlit("6");
        reveal_strlit("7");
        reveal_strlit("8");
        reveal_strlit("9");
        reveal_strlit("a");
        reveal_strlit("b");
        reveal_strlit("c");
        reveal_strlit("d");
        reveal_strlit("e");
        reveal_strlit("f");
    }
    let text = match digit {
        0 => "0",
        1 => "1",
        2 => "2",
        3 => "3",
        4 => "4",
        5 => "5",
        6 => "6",
        7 => "7",
        8 => "8",
        9 => "9",
        10 => "a",
        11 => "b",
        12 => "c",
        13 => "d",
        14 => "e",
        _ => "f",
    };
    assert(text@ =~= seq![hex_char(digit as int)]);
    text
}

/// Append a number's last `n` hexadecimal digits.
fn append_hex(text: &mut String, value: u64, n: u8)
    ensures
        final(text)@ == old(text)@ + hex(value as int, n as nat),
    decreases n,
{
    if n == 0 {
        assert(text@ =~= old(text)@ + hex(value as int, 0));
        return ;
    }
    append_hex(text, value / 16, n - 1);
    text.append(hex_digit(value % 16));
    assert(text@ =~= old(text)@ + hex(value as int, n as nat));
}

/// The lock name of a HID node: a stable hash of its identity, so every process
/// that lists the node arrives at the same name.
pub fn node_lock_name(node: &NodeId) -> (name: String)
    ensures
        name@ == lock_name(node.spelling()),
{
    let bytes = node.name.as_str().as_bytes();
    let mut hash: u64 = FNV_OFFSET;
    assert(bytes@.take(0) =~= Seq::empty());
    for i in 0..bytes.len()
        invariant
            hash == fnv1a(bytes@.take(i as int)),
    {
        assert(bytes@.take(i + 1).drop_last() =~= bytes@.take(i as int));
        hash = (hash ^ (bytes[i] as u64)).wrapping_mul(FNV_PRIME);
    }
    assert(bytes@.take(bytes@.len() as int) =~= bytes@);
    let mut name = "node-".to_owned();
    append_hex(&mut name, hash, 16);
    name
}

/// Sixteen to the `n`.
pub open spec fn pow16(n: nat) -> int
    decreases n,
{
    if n == 0 {
        1
    } else {
        16 * pow16((n - 1) as nat)
    }
}

/// Two numbers with the same digits are the same number.
pub proof fn lemma_digits_tell_numbers_apart(a: int, b: int, n: nat)
    requires
        0 <= a < pow16(n),
        0 <= b < pow16(n),
        hex(a, n) == hex(b, n),
    ensures
        a == b,
    decreases n,
{
    if n > 0 {
        let m = (n - 1) as nat;
        assert(hex(a, n) == hex(a / 16, m).push(hex_char(a % 16)));
        assert(hex(b, n) == hex(b / 16, m).push(hex_char(b % 16)));
        assert(hex(a, n).last() == hex_char(a % 16));
        assert(hex(b, n).last() == hex_char(b % 16));
        assert(hex(a, n).drop_last() =~= hex(a / 16, m));
        assert(hex(b, n).drop_last() =~= hex(b / 16, m));
        assert(a % 16 == b % 16);
        lemma_digits_tell_numbers_apart(a / 16, b / 16, m);
    }
}

/// Nodes with different hashes have different lock names.
pub proof fn lemma_lock_names_are_distinct(a: Seq<char>, b: Seq<char>)
    requires
        fnv1a(vstd::utf8::encode_utf8(a)) != fnv1a(vstd::utf8::encode_utf8(b)),
    ensures
        lock_name(a) != lock_name(b),
{
    let x = fnv1a(vstd::utf8::encode_utf8(a)) as int;
    let y = fnv1a(vstd::utf8::encode_utf8(b)) as int;
    assert(pow16(16) == 0x1_0000_0000_0000_0000) by {
        reveal_with_fuel(pow16, 17);
    }
    if lock_name(a) == lock_name(b) {
        let prefix = "node-"@.len() as int;
        assert(lock_name(a).skip(prefix) =~= hex(x, 16));
        assert(lock_name(b).skip(prefix) =~= hex(y, 16));
        lemma_digits_tell_numbers_apart(x, y, 16);
    }
}

/// How an attempt at a lock went.
#[derive(Debug, Clone, Copy, PartialEq, Eq, Structural)]
pub enum LockAttempt {
    Taken,
    /// Somebody else has it.
    Held,
    /// There is no place for locks.
    Unusable,
}

/// What to do after an attempt at a lock.
#[derive(Debug, Clone, Copy, PartialEq, Eq, Structural)]
pub enum LockStep {
    Hold,
    /// Try again after this many nanoseconds.
    RetryAfter(u64),
    /// Go on without the lock.
    GiveUp,
}

/// Whether to go on trying for a lock. A taken lock is kept even where the
/// deadline has passed; a held one is tried until then.
pub fn lock_step(attempt: LockAttempt, deadline: u64, now: u64) -> (step: LockStep)
    ensures
        step == match attempt {
            LockAttempt::Taken => LockStep::Hold,
            LockAttempt::Held => if now < deadline {
                LockStep::RetryAfter(POLL)
            } else {
                LockStep::GiveUp
            },
            LockAttempt::Unusable => LockStep::GiveUp,
        },
{
    match attempt {
        LockAttempt::Taken => LockStep::Hold,
        LockAttempt::Held => {
            if now < deadline {
                LockStep::RetryAfter(POLL)
            } else {
                LockStep::GiveUp
            }
        },
        LockAttempt::Unusable => LockStep::GiveUp,
    }
}

/// A number's digits are as many as asked for, and the last stands for its
/// remainder.
pub proof fn lemma_digits_are_all_there(value: int, n: nat)
    requires
        value >= 0,
    ensures
        hex(value, n).len() == n,
        n > 0 ==> hex(value, n).last() == hex_char(value % 16) && hex(value, n).drop_last() == hex(
            value / 16,
            (n - 1) as nat,
        ),
    decreases n,
{
    if n > 0 {
        lemma_digits_are_all_there(value / 16, (n - 1) as nat);
        assert(hex(value, n).drop_last() =~= hex(value / 16, (n - 1) as nat));
    }
}

/// Digits are told apart.
pub proof fn lemma_digits_are_distinct(a: int, b: int)
    requires
        0 <= a < 16,
        0 <= b < 16,
        hex_char(a) == hex_char(b),
    ensures
        a == b,
{
}

/// Every byte of an identity goes into its hash, in order.
pub proof fn lemma_every_byte_is_hashed(bytes: Seq<u8>, more: u8)
    ensures
        fnv1a(Seq::empty()) == FNV_OFFSET,
        fnv1a(bytes.push(more)) == (fnv1a(bytes) ^ (more as u64)).wrapping_mul(FNV_PRIME),
{
    assert(bytes.push(more).drop_last() =~= bytes);
}

/// Lock names are all of one length.
pub proof fn lemma_lock_names_are_as_long(node: Seq<char>)
    ensures
        lock_name(node).len() == "node-"@.len() + 16,
{
    lemma_digits_are_all_there(fnv1a(vstd::utf8::encode_utf8(node)) as int, 16);
}

} // verus!
