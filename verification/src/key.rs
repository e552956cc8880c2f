//! Storage keys: paths of non-empty ASCII segments joined by `/`, ordered
//! lexicographically by their serialized form.

use crate::bytes::{append_bytes, clone_bytes};
use crate::error::Error;
use vstd::prelude::*;
use vstd::string::StringSliceAdditionalSpecFns;

verus! {

/// The byte that separates the segments of a key: `/`.
pub const SEPARATOR: u8 = 47;

/// `s` is the serialized form of a key: ASCII, not empty, and with no empty
/// segment.
pub open spec fn is_key_string(s: Seq<u8>) -> bool {
    &&& s.len() > 0
    &&& forall|i: int| 0 <= i < s.len() ==> #[trigger] s[i] < 128
    &&& s[0] != SEPARATOR
    &&& s[s.len() - 1] != SEPARATOR
    &&& forall|i: int| 0 <= i < s.len() - 1 ==> !(#[trigger] s[i] == SEPARATOR && s[i + 1] == SEPARATOR)
}

/// `s` is one segment of a key: ASCII, not empty, without a separator.
pub open spec fn is_segment(s: Seq<u8>) -> bool {
    &&& s.len() > 0
    &&& forall|i: int| 0 <= i < s.len() ==> #[trigger] s[i] < 128 && s[i] != SEPARATOR
}

/// The byte that marks an address segment: `#`.
pub const ADDRESS_MARK: u8 = 35;

/// The segment under which an account keeps its validity predicate: `?`.
pub const VP_SEGMENT: u8 = 63;

/// The key of the validity predicate of the account at `address`.
pub open spec fn vp_key(address: Seq<u8>) -> Seq<u8> {
    seq![ADDRESS_MARK] + address + seq![SEPARATOR, VP_SEGMENT]
}

pub proof fn lemma_vp_key_is_key(address: Seq<u8>)
    requires
        is_segment(address),
    ensures
        is_key_string(vp_key(address)),
{
    let k = vp_key(address);
    let n = address.len() as int;
    assert forall|i: int| 0 <= i < k.len() implies #[trigger] k[i] < 128 by {
        if 1 <= i <= n {
            assert(k[i] == address[i - 1]);
        }
    }
    assert forall|i: int| 0 <= i < k.len() - 1 implies !(#[trigger] k[i] == SEPARATOR && k[i + 1]
        == SEPARATOR) by {
        if 1 <= i <= n {
            assert(k[i] == address[i - 1]);
        }
    }
}

/// A key, followed by a separator and one more segment.
pub open spec fn pushed(key: Seq<u8>, segment: Seq<u8>) -> Seq<u8> {
    key + seq![SEPARATOR] + segment
}

pub proof fn lemma_pushed_is_key(key: Seq<u8>, segment: Seq<u8>)
    requires
        is_key_string(key),
        is_segment(segment),
    ensures
        is_key_string(pushed(key, segment)),
{
    let p = pushed(key, segment);
    let n = key.len() as int;
    assert forall|i: int| 0 <= i < p.len() implies #[trigger] p[i] < 128 by {
        if i < n {
            assert(p[i] == key[i]);
        } else if i > n {
            assert(p[i] == segment[i - n - 1]);
        }
    }
    assert(p[0] == key[0]);
    assert(p[p.len() - 1] == segment[segment.len() - 1]);
    assert forall|i: int| 0 <= i < p.len() - 1 implies !(#[trigger] p[i] == SEPARATOR && p[i + 1]
        == SEPARATOR) by {
        if i + 1 < n {
            assert(p[i] == key[i]);
            assert(p[i + 1] == key[i + 1]);
        } else if i + 1 == n {
            assert(p[i] == key[n - 1]);
        } else if i == n {
            assert(p[i + 1] == segment[0]);
        } else {
            assert(p[i] == segment[i - n - 1]);
        }
    }
}

fn check_key_string(s: &[u8]) -> (r: bool)
    ensures
        r == is_key_string(s@),
{
    let n = s.len();
    if n == 0 {
        return false;
    }
    if s[0] == SEPARATOR || s[n - 1] == SEPARATOR {
        return false;
    }
    let mut i: usize = 0;
    while i < n
        invariant
            i <= n,
            n == s@.len(),
            forall|j: int| 0 <= j < i ==> #[trigger] s@[j] < 128,
            forall|j: int| 0 <= j < i && j < n - 1 ==> !(#[trigger] s@[j] == SEPARATOR && s@[j + 1] == SEPARATOR),
        decreases n - i,
    {
        if s[i] >= 128 {
            return false;
        }
        if i + 1 < n && s[i] == SEPARATOR && s[i + 1] == SEPARATOR {
            return false;
        }
        i += 1;
    }
    true
}

fn check_segment(s: &[u8]) -> (r: bool)
    ensures
        r == is_segment(s@),
{
    let n = s.len();
    if n == 0 {
        return false;
    }
    let mut i: usize = 0;
    while i < n
        invariant
            i <= n,
            n == s@.len(),
            forall|j: int| 0 <= j < i ==> #[trigger] s@[j] < 128 && s@[j] != SEPARATOR,
        decreases n - i,
    {
        if s[i] >= 128 || s[i] == SEPARATOR {
            return false;
        }
        i += 1;
    }
    true
}

/// A storage key.
#[derive(Debug)]
pub struct Key {
    bytes: Vec<u8>,
}

impl View for Key {
    type V = Seq<u8>;

    closed spec fn view(&self) -> Seq<u8> {
        self.bytes@
    }
}

impl Key {
    /// Every key that this module hands out is a key string.
    pub open spec fn wf(&self) -> bool {
        is_key_string(self@)
    }

    /// Parses the serialized form of a key.
    pub fn parse(s: &str) -> (r: Result<Key, Error>)
        ensures
            match r {
                Ok(k) => is_key_string(s.spec_bytes()) && k@ == s.spec_bytes() && k.wf(),
                Err(e) => e == Error::KeyParseError && !is_key_string(s.spec_bytes()),
            },
    {
        Key::from_bytes(s.as_bytes())
    }

    /// Reads a key from its serialized bytes.
    pub fn from_bytes(b: &[u8]) -> (r: Result<Key, Error>)
        ensures
            match r {
                Ok(k) => is_key_string(b@) && k@ == b@ && k.wf(),
                Err(e) => e == Error::KeyParseError && !is_key_string(b@),
            },
    {
        if check_key_string(b) {
            Ok(Key { bytes: clone_bytes(b) })
        } else {
            Err(Error::KeyParseError)
        }
    }

    /// The key with one more segment.
    pub fn push(&self, segment: &str) -> (r: Result<Key, Error>)
        requires
            self.wf(),
        ensures
            match r {
                Ok(k) => is_segment(segment.spec_bytes()) && k@ == pushed(self@, segment.spec_bytes())
                    && k.wf(),
                Err(e) => e == Error::KeyParseError && !is_segment(segment.spec_bytes()),
            },
    {
        self.push_bytes(segment.as_bytes())
    }

    /// The key with one more segment, given by its bytes.
    pub fn push_bytes(&self, segment: &[u8]) -> (r: Result<Key, Error>)
        requires
            self.wf(),
        ensures
            match r {
                Ok(k) => is_segment(segment@) && k@ == pushed(self@, segment@) && k.wf(),
                Err(e) => e == Error::KeyParseError && !is_segment(segment@),
            },
    {
        if !check_segment(segment) {
            return Err(Error::KeyParseError);
        }
        let mut bytes = clone_bytes(self.bytes.as_slice());
        bytes.push(SEPARATOR);
        append_bytes(&mut bytes, segment);
        proof {
            assert(bytes@ =~= pushed(self@, segment@));
            lemma_pushed_is_key(self@, segment@);
        }
        Ok(Key { bytes })
    }

    /// The key under which the account at `address` keeps its validity
    /// predicate.
    pub fn validity_predicate(address: &str) -> (r: Result<Key, Error>)
        ensures
            match r {
                Ok(k) => is_segment(address.spec_bytes()) && k@ == vp_key(address.spec_bytes())
                    && k.wf(),
                Err(e) => e == Error::KeyParseError && !is_segment(address.spec_bytes()),
            },
    {
        let a = address.as_bytes();
        if !check_segment(a) {
            return Err(Error::KeyParseError);
        }
        let mut bytes: Vec<u8> = Vec::new();
        bytes.push(ADDRESS_MARK);
        append_bytes(&mut bytes, a);
        bytes.push(SEPARATOR);
        bytes.push(VP_SEGMENT);
        proof {
            assert(bytes@ =~= vp_key(a@));
            lemma_vp_key_is_key(a@);
        }
        Ok(Key { bytes })
    }

    /// Whether the key comes before `other` in the order of keys.
    pub fn is_before(&self, other: &Key) -> (r: bool)
        ensures
            r == crate::bytes::lex_lt(self@, other@),
    {
        crate::bytes::bytes_lt(self.bytes.as_slice(), other.bytes.as_slice())
    }

    /// The length of the serialized key, in bytes.
    pub fn len(&self) -> (n: usize)
        ensures
            n == self@.len(),
    {
        self.bytes.len()
    }

    /// The serialized key.
    pub fn as_bytes(&self) -> (b: &[u8])
        ensures
            b@ == self@,
    {
        self.bytes.as_slice()
    }

    /// A copy of the key.
    pub fn duplicate(&self) -> (k: Key)
        ensures
            k@ == self@,
    {
        Key { bytes: clone_bytes(self.bytes.as_slice()) }
    }
}

} // verus!
