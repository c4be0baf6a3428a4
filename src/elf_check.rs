use vstd::prelude::*;

verus! {

/// Unsigned little-endian number of `n` bytes of `b` from `o`.
pub open spec fn le(b: Seq<u8>, o: int, n: nat) -> int
    decreases n,
{
    if n == 0 {
        0
    } else {
        b[o] as int + 256 * le(b, o + 1, (n - 1) as nat)
    }
}

pub open spec fn shoff(b: Seq<u8>) -> int {
    le(b, 0x28, 8)
}

pub open spec fn shentsize(b: Seq<u8>) -> int {
    le(b, 0x3a, 2)
}

pub open spec fn shnum(b: Seq<u8>) -> int {
    le(b, 0x3c, 2)
}

pub open spec fn shstrndx(b: Seq<u8>) -> int {
    le(b, 0x3e, 2)
}

/// Start of the header of section `i`.
pub open spec fn hdr(b: Seq<u8>, i: int) -> int {
    shoff(b) + 64 * i
}

pub open spec fn sec_name(b: Seq<u8>, i: int) -> int {
    le(b, hdr(b, i), 4)
}

pub open spec fn sec_type(b: Seq<u8>, i: int) -> int {
    le(b, hdr(b, i) + 4, 4)
}

pub open spec fn sec_off(b: Seq<u8>, i: int) -> int {
    le(b, hdr(b, i) + 0x18, 8)
}

pub open spec fn sec_size(b: Seq<u8>, i: int) -> int {
    le(b, hdr(b, i) + 0x20, 8)
}

/// Where the name of section `i` starts in the section-name table.
pub open spec fn name_start(b: Seq<u8>, i: int) -> int {
    sec_off(b, shstrndx(b)) + sec_name(b, i)
}

/// From `i`, before `e`, an ASCII string ends in a NUL byte.
pub open spec fn cstr_ok(b: Seq<u8>, i: int, e: int) -> bool
    decreases e - i,
{
    if i < 0 || i >= e || e > b.len() {
        false
    } else if b[i] == 0 {
        true
    } else if b[i] >= 128 {
        false
    } else {
        cstr_ok(b, i + 1, e)
    }
}

pub open spec fn symtab_name() -> Seq<u8> {
    seq![46u8, 115u8, 121u8, 109u8, 116u8, 97u8, 98u8]
}

pub open spec fn strtab_name() -> Seq<u8> {
    seq![46u8, 115u8, 116u8, 114u8, 116u8, 97u8, 98u8]
}

/// Section `i` is named `lit` (a name without NUL bytes).
pub open spec fn has_name(b: Seq<u8>, i: int, lit: Seq<u8>) -> bool {
    let s = name_start(b, i);
    &&& 0 <= s
    &&& s + lit.len() < b.len()
    &&& b.subrange(s, s + lit.len() as int) == lit
    &&& b[s + lit.len()] == 0
}

/// A 64-bit little-endian ELF header whose section-header table lies in
/// the image, with 64-byte entries, aligned to 8 bytes.
pub open spec fn header_ok(b: Seq<u8>) -> bool {
    &&& b.len() >= 64
    &&& b[0] == 0x7f && b[1] == 0x45 && b[2] == 0x4c && b[3] == 0x46
    &&& b[4] == 2 && b[5] == 1
    &&& shentsize(b) == 64
    &&& shnum(b) < 0xff00
    &&& shstrndx(b) < shnum(b)
    &&& shoff(b) % 8 == 0
    &&& shoff(b) + 64 * shnum(b) <= b.len()
}

pub open spec fn is_symtab(b: Seq<u8>, i: int) -> bool {
    0 <= i < shnum(b) && sec_type(b, i) != 0 && has_name(b, i, symtab_name())
}

pub open spec fn is_strtab(b: Seq<u8>, i: int) -> bool {
    0 <= i < shnum(b) && sec_type(b, i) == 3 && has_name(b, i, strtab_name())
}

/// A symbol table section: in the image, 8-byte aligned, whole entries.
pub open spec fn symtab_ok(b: Seq<u8>, i: int) -> bool {
    &&& sec_type(b, i) == 2
    &&& sec_off(b, i) % 8 == 0
    &&& sec_size(b, i) % 24 == 0
    &&& sec_off(b, i) + sec_size(b, i) <= b.len()
}

/// Every symbol of table `i` has its name, in string table `j`, as an
/// ASCII string ended by NUL inside `j`.
pub open spec fn symbol_names_ok(b: Seq<u8>, i: int, j: int) -> bool {
    forall|k: int| 0 <= k < sec_size(b, i) / 24 ==>
        #[trigger] cstr_ok(b, sec_off(b, j) + le(b, sec_off(b, i) + 24 * k, 4), sec_off(b, j) + sec_size(b, j))
}

/// An image that the ELF reader walks without leaving its bounds: the
/// header and section table are in it; every typed section's name is an
/// ASCII string ended by NUL; every section named `.symtab` is a symbol
/// table in bounds with whole, aligned entries; every `.strtab` string
/// table is in bounds; and every symbol name of every `.symtab` is an ASCII
/// string ended by NUL inside every `.strtab`.
pub open spec fn elf_image_ok(b: Seq<u8>) -> bool {
    &&& header_ok(b)
    &&& forall|i: int| 0 <= i < shnum(b) && #[trigger] sec_type(b, i) != 0 ==> cstr_ok(b, name_start(b, i), b.len() as int)
    &&& forall|i: int| #[trigger] is_symtab(b, i) ==> symtab_ok(b, i)
    &&& forall|j: int| #[trigger] is_strtab(b, j) ==> sec_off(b, j) + sec_size(b, j) <= b.len()
    &&& forall|i: int, j: int| is_symtab(b, i) && is_strtab(b, j) ==> #[trigger] symbol_names_ok(b, i, j)
}

pub open spec fn pow256(n: nat) -> int
    decreases n,
{
    if n == 0 {
        1
    } else {
        256 * pow256((n - 1) as nat)
    }
}

proof fn lemma_le_bound(b: Seq<u8>, o: int, n: nat)
    ensures
        0 <= le(b, o, n) < pow256(n),
    decreases n,
{
    if n > 0 {
        lemma_le_bound(b, o + 1, (n - 1) as nat);
        let r = le(b, o + 1, (n - 1) as nat);
        let p = pow256((n - 1) as nat);
        assert(b[o] as int + 256 * r < 256 * p) by (nonlinear_arith)
            requires
                0 <= b[o] as int <= 255,
                0 <= r < p,
        ;
    }
}

/// Reads `n` (at most 8) bytes of `b` from `o` as a little-endian number.
fn read_le(b: &[u8], o: usize, n: usize) -> (r: u128)
    requires
        n <= 8,
        o + n <= b@.len(),
    ensures
        r as int == le(b@, o as int, n as nat),
        r < 0x1_0000_0000_0000_0000,
{
    proof {
        lemma_le_bound(b@, o as int, n as nat);
        assert(pow256(n as nat) <= pow256(8)) by {
            lemma_pow_mono(n as nat, 8);
        }
        assert(pow256(8) == 0x1_0000_0000_0000_0000) by { reveal_with_fuel(pow256, 9); }
    }
    let len = b.len();
    let mut r: u128 = 0;
    let mut k: usize = n;
    while k > 0
        invariant
            k <= n <= 8,
            o + n <= b@.len(),
            len == b@.len(),
            r as int == le(b@, o + k, (n - k) as nat),
            r < 0x1_0000_0000_0000_0000,
        decreases k,
    {
        proof {
            lemma_le_bound(b@, o + k - 1, (n - k + 1) as nat);
            assert(pow256((n - k + 1) as nat) <= pow256(8)) by {
                lemma_pow_mono((n - k + 1) as nat, 8);
            }
            assert(pow256(8) == 0x1_0000_0000_0000_0000) by { reveal_with_fuel(pow256, 9); }
        }
        k = k - 1;
        r = b[o + k] as u128 + 256 * r;
    }
    r
}

proof fn lemma_pow_mono(a: nat, c: nat)
    requires
        a <= c,
    ensures
        pow256(a) <= pow256(c),
    decreases c,
{
    if a < c {
        lemma_pow_mono(a, (c - 1) as nat);
        lemma_pow_pos((c - 1) as nat);
    }
}

proof fn lemma_pow_pos(a: nat)
    ensures
        pow256(a) >= 1,
    decreases a,
{
    if a > 0 {
        lemma_pow_pos((a - 1) as nat);
    }
}

/// Whether an ASCII string ended by NUL starts at `i`, before `e`.
fn cstr_check(b: &[u8], i: u128, e: u128) -> (r: bool)
    ensures
        r == cstr_ok(b@, i as int, e as int),
{
    let len = b.len();
    if e > len as u128 {
        return false;
    }
    let mut p = i;
    while p < e
        invariant
            i <= p,
            e <= len,
            len == b@.len(),
            cstr_ok(b@, i as int, e as int) == cstr_ok(b@, p as int, e as int),
        decreases e - p,
    {
        let c = b[p as usize];
        if c == 0 {
            return true;
        }
        if c >= 128 {
            return false;
        }
        p = p + 1;
    }
    false
}

/// Whether the NUL-free name `lit` followed by NUL starts at `s`.
fn name_check(b: &[u8], s: u128, lit: &Vec<u8>) -> (r: bool)
    requires
        s < 0x2_0000_0000_0000_0000,
        lit@.len() < 0x1_0000,
    ensures
        r == {
            &&& s + lit@.len() < b@.len()
            &&& b@.subrange(s as int, s + lit@.len()) == lit@
            &&& b@[s + lit@.len()] == 0
        },
{
    let len = b.len();
    let n = lit.len();
    if s + (n as u128) >= len as u128 {
        return false;
    }
    let st = s as usize;
    let mut k: usize = 0;
    while k < n
        invariant
            n == lit@.len(),
            len == b@.len(),
            st + n < len,
            st == s,
            0 <= k <= n,
            forall|q: int| 0 <= q < k ==> b@[st + q] == lit@[q],
        decreases n - k,
    {
        let c = b[st + k];
        if c != lit[k] {
            assert(c == b@[st + k]);
            assert(b@.subrange(s as int, s + n)[k as int] == b@[st + k]);
            assert(b@.subrange(s as int, s + n)[k as int] != lit@[k as int]);
            return false;
        }
        k = k + 1;
    }
    assert(b@.subrange(s as int, s + n) =~= lit@);
    b[st + n] == 0
}

/// Fields of section `i`: type, name, offset, size.
fn section_fields(b: &[u8], off: u128, i: u128) -> (r: (u128, u128, u128, u128))
    requires
        header_ok(b@),
        off == shoff(b@),
        off < 0x1_0000_0000_0000_0000,
        0 <= i < shnum(b@),
    ensures
        r.0 == sec_type(b@, i as int),
        r.1 == sec_name(b@, i as int),
        r.2 == sec_off(b@, i as int),
        r.3 == sec_size(b@, i as int),
        r.2 < 0x1_0000_0000_0000_0000,
        r.3 < 0x1_0000_0000_0000_0000,
        r.1 < 0x1_0000_0000_0000_0000,
{
    let len = b.len();
    assert(off + 64 * i + 64 <= b@.len());
    let h = off + 64 * i;
    let t = read_le(b, (h + 4) as usize, 4);
    let nm = read_le(b, h as usize, 4);
    let o = read_le(b, (h + 0x18) as usize, 8);
    let z = read_le(b, (h + 0x20) as usize, 8);
    (t, nm, o, z)
}

/// Whether the ELF reader can walk `b` within its bounds; see
/// `elf_image_ok`.
pub fn elf_image_check(b: &[u8]) -> (r: bool)
    ensures
        r == elf_image_ok(b@),
{
    let len = b.len();
    if len < 64 {
        return false;
    }
    if !(b[0] == 0x7f && b[1] == 0x45 && b[2] == 0x4c && b[3] == 0x46 && b[4] == 2 && b[5] == 1) {
        return false;
    }
    let off = read_le(b, 0x28, 8);
    let entsize = read_le(b, 0x3a, 2);
    let num = read_le(b, 0x3c, 2);
    let strndx = read_le(b, 0x3e, 2);
    if entsize != 64 || num >= 0xff00 || strndx >= num || off % 8 != 0 || off + 64 * num > len as u128 {
        return false;
    }
    assert(header_ok(b@));
    let names = section_fields(b, off, strndx).2;
    let symtab: Vec<u8> = vec![46u8, 115u8, 121u8, 109u8, 116u8, 97u8, 98u8];
    let strtab: Vec<u8> = vec![46u8, 115u8, 116u8, 114u8, 116u8, 97u8, 98u8];
    assert(symtab@ =~= symtab_name());
    assert(strtab@ =~= strtab_name());
    let mut i: u128 = 0;
    while i < num
        invariant
            header_ok(b@),
            len == b@.len(),
            off == shoff(b@),
            num == shnum(b@),
            names == sec_off(b@, shstrndx(b@)),
            names < 0x1_0000_0000_0000_0000,
            off < 0x1_0000_0000_0000_0000,
            0 <= i <= num,
            forall|q: int| 0 <= q < i && #[trigger] sec_type(b@, q) != 0 ==> cstr_ok(b@, name_start(b@, q), len as int),
        decreases num - i,
    {
        let (t, nm, _, _) = section_fields(b, off, i);
        if t != 0 && !cstr_check(b, names + nm, len as u128) {
            assert(sec_type(b@, i as int) != 0);
            return false;
        }
        i = i + 1;
    }
    let mut i: u128 = 0;
    while i < num
        invariant
            header_ok(b@),
            len == b@.len(),
            off == shoff(b@),
            num == shnum(b@),
            names == sec_off(b@, shstrndx(b@)),
            names < 0x1_0000_0000_0000_0000,
            off < 0x1_0000_0000_0000_0000,
            symtab@ == symtab_name(),
            strtab@ == strtab_name(),
            0 <= i <= num,
            forall|q: int| 0 <= q < i && #[trigger] is_symtab(b@, q) ==> symtab_ok(b@, q),
            forall|q: int| 0 <= q < i && #[trigger] is_strtab(b@, q) ==> sec_off(b@, q) + sec_size(b@, q) <= b@.len(),
        decreases num - i,
    {
        let (t, nm, o, z) = section_fields(b, off, i);
        if t != 0 && name_check(b, names + nm, &symtab) {
            assert(is_symtab(b@, i as int));
            if !(t == 2 && o % 8 == 0 && z % 24 == 0 && o + z <= len as u128) {
                return false;
            }
        }
        if t == 3 && name_check(b, names + nm, &strtab) {
            assert(is_strtab(b@, i as int));
            if o + z > len as u128 {
                return false;
            }
        }
        i = i + 1;
    }
    let mut i: u128 = 0;
    while i < num
        invariant
            header_ok(b@),
            len == b@.len(),
            off == shoff(b@),
            num == shnum(b@),
            names == sec_off(b@, shstrndx(b@)),
            names < 0x1_0000_0000_0000_0000,
            off < 0x1_0000_0000_0000_0000,
            symtab@ == symtab_name(),
            strtab@ == strtab_name(),
            forall|q: int| #[trigger] is_symtab(b@, q) ==> symtab_ok(b@, q),
            forall|q: int| #[trigger] is_strtab(b@, q) ==> sec_off(b@, q) + sec_size(b@, q) <= b@.len(),
            0 <= i <= num,
            forall|p: int, q: int| 0 <= p < i && is_symtab(b@, p) && is_strtab(b@, q) ==> #[trigger] symbol_names_ok(b@, p, q),
        decreases num - i,
    {
        let (t, nm, o, z) = section_fields(b, off, i);
        if t != 0 && name_check(b, names + nm, &symtab) {
            assert(is_symtab(b@, i as int));
            let mut j: u128 = 0;
            while j < num
                invariant
                    header_ok(b@),
                    len == b@.len(),
                    off == shoff(b@),
                    num == shnum(b@),
                    names == sec_off(b@, shstrndx(b@)),
            names < 0x1_0000_0000_0000_0000,
            off < 0x1_0000_0000_0000_0000,
                    strtab@ == strtab_name(),
                    is_symtab(b@, i as int),
                    symtab_ok(b@, i as int),
                    o == sec_off(b@, i as int),
                    z == sec_size(b@, i as int),
                    forall|q: int| #[trigger] is_strtab(b@, q) ==> sec_off(b@, q) + sec_size(b@, q) <= b@.len(),
                    0 <= j <= num,
                    forall|q: int| 0 <= q < j && is_strtab(b@, q) ==> #[trigger] symbol_names_ok(b@, i as int, q),
                decreases num - j,
            {
                let (t2, nm2, o2, z2) = section_fields(b, off, j);
                if t2 == 3 && name_check(b, names + nm2, &strtab) {
                    assert(is_strtab(b@, j as int));
                    let count = z / 24;
                    let mut k: u128 = 0;
                    while k < count
                        invariant
                            len == b@.len(),
                            symtab_ok(b@, i as int),
                            o == sec_off(b@, i as int),
                            z == sec_size(b@, i as int),
                            o2 == sec_off(b@, j as int),
                            z2 == sec_size(b@, j as int),
                            count == z / 24,
                            is_symtab(b@, i as int),
                            is_strtab(b@, j as int),
                            o2 < 0x1_0000_0000_0000_0000,
                            z2 < 0x1_0000_0000_0000_0000,
                            0 <= k <= count,
                            forall|q: int| 0 <= q < k ==>
                                #[trigger] cstr_ok(b@, sec_off(b@, j as int) + le(b@, sec_off(b@, i as int) + 24 * q, 4),
                                    sec_off(b@, j as int) + sec_size(b@, j as int)),
                        decreases count - k,
                    {
                        assert(24 * k + 24 <= z) by (nonlinear_arith)
                            requires
                                k < count,
                                count == z / 24,
                        ;
                        let name = read_le(b, (o + 24 * k) as usize, 4);
                        if !cstr_check(b, o2 + name, o2 + z2) {
                            assert(!cstr_ok(b@, sec_off(b@, j as int) + le(b@, sec_off(b@, i as int) + 24 * (k as int), 4),
                                sec_off(b@, j as int) + sec_size(b@, j as int)));
                            assert((k as int) < sec_size(b@, i as int) / 24);
                            assert(!symbol_names_ok(b@, i as int, j as int));
                            assert(is_symtab(b@, i as int) && is_strtab(b@, j as int));
                            assert(!elf_image_ok(b@));
                            return false;
                        }
                        k = k + 1;
                    }
                }
                j = j + 1;
            }
        }
        i = i + 1;
    }
    true
}

} // verus!
