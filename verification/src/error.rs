use vstd::prelude::*;
use vstd::string::StringExecFns;

verus! {

/// Why a merge stops. Nothing is recovered locally: every error ends the run.
#[derive(Clone, Copy, Debug, PartialEq, Eq, Structural)]
pub enum MergeError {
    /// A sum of keys, data blocks or lengths left the 64-bit range; the
    /// metadata is corrupt.
    Overflow,
    /// More was bitten off the head of a stream than the head holds.
    DeltaTooLarge,
    /// The device has no mapping tree.
    NoMappingTree(u64),
    /// The device has no details record.
    NoDetails(u64),
    /// A metadata snapshot was asked for and the pool holds none.
    NoMetadataSnap,
    /// The details root of the output is not a leaf.
    UnexpectedNodeType,
}

/// The character of a decimal digit.
pub open spec fn digit(d: nat) -> char {
    if d == 0 {
        '0'
    } else if d == 1 {
        '1'
    } else if d == 2 {
        '2'
    } else if d == 3 {
        '3'
    } else if d == 4 {
        '4'
    } else if d == 5 {
        '5'
    } else if d == 6 {
        '6'
    } else if d == 7 {
        '7'
    } else if d == 8 {
        '8'
    } else {
        '9'
    }
}

/// A number in decimal digits, without leading zeros.
pub open spec fn decimal(n: nat) -> Seq<char>
    decreases n,
{
    if n < 10 {
        seq![digit(n)]
    } else {
        decimal(n / 10) + seq![digit(n % 10)]
    }
}

fn digit_str(d: u64) -> (r: &'static str)
    requires
        d < 10,
    ensures
        r@ == seq![digit(d as nat)],
{
    proof {
        reveal_strlit("0");
        reveal_strlit("1");
        reveal_strlit("2");
        reveal_strlit("3");
        reveal_strlit("4");
        reveal_strlit("5");
        reveal_strlit("6");
        reveal_strlit("7");
        reveal_strlit("8");
        reveal_strlit("9");
    }
    let r = if d == 0 {
        "0"
    } else if d == 1 {
        "1"
    } else if d == 2 {
        "2"
    } else if d == 3 {
        "3"
    } else if d == 4 {
        "4"
    } else if d == 5 {
        "5"
    } else if d == 6 {
        "6"
    } else if d == 7 {
        "7"
    } else if d == 8 {
        "8"
    } else {
        "9"
    };
    assert(r@ =~= seq![digit(d as nat)]);
    r
}

fn decimal_string(n: u64) -> (r: String)
    ensures
        r@ == decimal(n as nat),
    decreases n,
{
    if n < 10 {
        String::from_str(digit_str(n))
    } else {
        let mut s = decimal_string(n / 10);
        s.append(digit_str(n % 10));
        s
    }
}

impl MergeError {
    /// The one line that reports the error. A device that is missing from
    /// either tree is reported in the same words.
    pub open spec fn message_text(self) -> Seq<char> {
        match self {
            MergeError::Overflow => "arithmetic overflow in the metadata"@,
            MergeError::DeltaTooLarge => "delta too large"@,
            MergeError::NoMappingTree(dev_id) => "Unable to find mapping tree for the device "@
                + decimal(dev_id as nat),
            MergeError::NoDetails(dev_id) => "Unable to find mapping tree for the device "@
                + decimal(dev_id as nat),
            MergeError::NoMetadataSnap => "no current metadata snap"@,
            MergeError::UnexpectedNodeType => "unexpected node type"@,
        }
    }

    /// The one line that reports the error.
    pub fn message(&self) -> (r: String)
        ensures
            r@ == self.message_text(),
    {
        match self {
            MergeError::Overflow => String::from_str("arithmetic overflow in the metadata"),
            MergeError::DeltaTooLarge => String::from_str("delta too large"),
            MergeError::NoMappingTree(dev_id) => {
                let id = decimal_string(*dev_id);
                String::from_str("Unable to find mapping tree for the device ").concat(id.as_str())
            },
            MergeError::NoDetails(dev_id) => {
                let id = decimal_string(*dev_id);
                String::from_str("Unable to find mapping tree for the device ").concat(id.as_str())
            },
            MergeError::NoMetadataSnap => String::from_str("no current metadata snap"),
            MergeError::UnexpectedNodeType => String::from_str("unexpected node type"),
        }
    }
}

} // verus!
