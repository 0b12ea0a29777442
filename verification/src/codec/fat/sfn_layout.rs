//! Pure 8.3 SFN on-disk layout and helpers.

use vstd::prelude::*;

verus! {

/// The 8.3 short filename every FAT entry carries alongside any LFN.
#[derive(Debug, Clone, Copy, PartialEq, Eq)]
pub struct Sfn {
    pub name: [u8; 8],
    pub ext: [u8; 3],
}

/// One rotate-right-and-add step, modulo 2⁸.
pub open spec fn roll8(v: int, byte: int) -> int {
    (v / 2 + 0x80 * (v % 2) + byte) % 0x100
}

/// The rotate-and-add checksum that ties long-name slots to their short name.
pub open spec fn sfn_checksum_of(b: Seq<u8>) -> int
    decreases b.len(),
{
    if b.len() == 0 {
        0
    } else {
        roll8(sfn_checksum_of(b.drop_last()), b.last() as int)
    }
}

/// The character shown for a short-name byte; bytes past ASCII have none.
pub open spec fn sfn_char(b: u8) -> char {
    if b < 128 {
        b as char
    } else {
        '\u{FFFD}'
    }
}

/// The ASCII characters with the Unicode `White_Space` property.
pub open spec fn ascii_space(b: u8) -> bool {
    9 <= b <= 13 || b == 0x20
}

/// `b` without its trailing white space.
pub open spec fn trimmed(b: Seq<u8>) -> Seq<u8>
    decreases b.len(),
{
    if b.len() > 0 && ascii_space(b.last()) {
        trimmed(b.drop_last())
    } else {
        b
    }
}

/// The characters of a short-name field.
pub open spec fn sfn_chars(b: Seq<u8>) -> Seq<char> {
    b.map_values(|c: u8| sfn_char(c))
}

/// The stored base name with the escape for a leading `0xE5` undone.
pub open spec fn unescaped(name: Seq<u8>) -> Seq<u8> {
    if name[0] == 0x05 {
        name.update(0, 0xE5)
    } else {
        name
    }
}

fn append_sfn_bytes(s: &mut String, b: &[u8], n: usize)
    requires
        n <= b@.len(),
    ensures
        final(s)@ == old(s)@ + sfn_chars(b@.subrange(0, n as int)),
{
    let mut i: usize = 0;
    while i < n
        invariant
            i <= n <= b@.len(),
            s@ =~= old(s)@ + sfn_chars(b@.subrange(0, i as int)),
        decreases n - i,
    {
        let byte: u8 = b[i];
        let c: char = if byte < 128 {
            byte as char
        } else {
            '\u{FFFD}'
        };
        s.push(c);
        i += 1;
    }
}

fn trimmed_len(b: &[u8]) -> (n: usize)
    ensures
        n <= b@.len(),
        b@.subrange(0, n as int) == trimmed(b@),
{
    let mut n: usize = b.len();
    assert(b@.subrange(0, n as int) =~= b@);
    while n > 0 && ((9 <= b[n - 1] && b[n - 1] <= 13) || b[n - 1] == 0x20)
        invariant
            n <= b@.len(),
            trimmed(b@.subrange(0, n as int)) == trimmed(b@),
        decreases n,
    {
        proof {
            assert(b@.subrange(0, n as int).drop_last() =~= b@.subrange(0, n - 1));
        }
        n -= 1;
    }
    n
}

impl Sfn {
    /// The eleven stored bytes, base name first.
    pub open spec fn raw(self) -> Seq<u8> {
        self.name@ + self.ext@
    }

    /// The displayed name: base, and a dot with the extension if there is one.
    pub open spec fn text(self) -> Seq<char> {
        let base = sfn_chars(trimmed(unescaped(self.name@)));
        let ext = trimmed(self.ext@);
        if ext.len() == 0 {
            base
        } else {
            base.push('.') + sfn_chars(ext)
        }
    }

    pub fn gen_checksum(&self) -> (sum: u8)
        ensures
            sum == sfn_checksum_of(self.raw()),
    {
        let mut sum: u8 = 0;
        let mut i: usize = 0;
        while i < 11
            invariant
                i <= 11,
                sum == sfn_checksum_of(self.raw().subrange(0, i as int)),
            decreases 11 - i,
        {
            let c: u8 = if i < 8 {
                self.name[i]
            } else {
                self.ext[i - 8]
            };
            proof {
                assert(self.raw().subrange(0, i + 1).drop_last() =~= self.raw().subrange(
                    0,
                    i as int,
                ));
            }
            sum = (((sum / 2) as u16 + 0x80 * ((sum % 2) as u16) + c as u16) % 0x100) as u8;
            i += 1;
        }
        assert(self.raw().subrange(0, 11) =~= self.raw());
        sum
    }

    pub fn decode(&self) -> (r: String)
        ensures
            r@ == self.text(),
    {
        let mut name: [u8; 8] = self.name;
        // 0x05 is the on-disk escape for a real leading 0xE5 (0xE5 marks
        // a deleted slot); restore it before decoding.
        if name[0] == 0x05 {
            name[0] = 0xE5;
        }
        assert(name@ =~= unescaped(self.name@));
        let mut string = String::new();
        let n: usize = trimmed_len(&name);
        append_sfn_bytes(&mut string, &name, n);
        let e: usize = trimmed_len(&self.ext);
        if e > 0 {
            string.push('.');
            append_sfn_bytes(&mut string, &self.ext, e);
        }
        proof {
            assert(string@ =~= self.text());
        }
        string
    }

    /// The `.` entry of a directory.
    pub fn current_dir() -> (r: Sfn)
        ensures
            r.raw() == current_dir_raw(),
    {
        let r = Sfn { name: [0x2E, 0x20, 0x20, 0x20, 0x20, 0x20, 0x20, 0x20], ext: [0x20;3] };
        assert(r.raw() =~= current_dir_raw());
        r
    }

    /// The `..` entry of a directory.
    pub fn parent_dir() -> (r: Sfn)
        ensures
            r.raw() == parent_dir_raw(),
    {
        let r = Sfn { name: [0x2E, 0x2E, 0x20, 0x20, 0x20, 0x20, 0x20, 0x20], ext: [0x20;3] };
        assert(r.raw() =~= parent_dir_raw());
        r
    }

    /// Whether two short names hold the same bytes.
    pub fn same(&self, other: &Sfn) -> (r: bool)
        ensures
            r == (self.raw() == other.raw()),
            r ==> *self == *other,
    {
        let mut i: usize = 0;
        while i < 8
            invariant
                i <= 8,
                forall|k: int| 0 <= k < i ==> self.name@[k] == other.name@[k],
            decreases 8 - i,
        {
            if self.name[i] != other.name[i] {
                assert(self.raw()[i as int] != other.raw()[i as int]);
                return false;
            }
            i += 1;
        }
        let mut j: usize = 0;
        while j < 3
            invariant
                j <= 3,
                forall|k: int| 0 <= k < j ==> self.ext@[k] == other.ext@[k],
            decreases 3 - j,
        {
            if self.ext[j] != other.ext[j] {
                assert(self.raw()[8 + j] != other.raw()[8 + j]);
                return false;
            }
            j += 1;
        }
        proof {
            assert(self.name =~= other.name);
            assert(self.ext =~= other.ext);
        }
        true
    }
}

/// `.` padded with blanks.
pub open spec fn current_dir_raw() -> Seq<u8> {
    Seq::new(11, |i: int| if i == 0 { 0x2Eu8 } else { 0x20u8 })
}

/// `..` padded with blanks.
pub open spec fn parent_dir_raw() -> Seq<u8> {
    Seq::new(11, |i: int| if i < 2 { 0x2Eu8 } else { 0x20u8 })
}

} // verus!
