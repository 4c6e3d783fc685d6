//! Disk cache of the full form: file names, archives that are split into parts, what a file has
//! to hold, and the report of a directory check.

use crate::components::{structural_check, structural_fault, StructuralFault};
use crate::config::CacheMode;
use crate::envelope::{
    compress_to_zip, holds_members, json_members, json_written, lemma_list_reads_back, list_of,
    member, members, older, plain_name, read_zip_text, reads_back, storable, text_field, text_list,
    version_is_older, writable, write_object, written_text, zip_archive, zip_text, FieldView,
    JsonField, JsonObject, ENTRY_NAME_LIMIT,
};
use crate::float::HpFloat;
use crate::lexical::{
    comes_before, law_sorted_texts_are_unique, law_texts_are_ordered, order_texts, sort_texts,
    texts_sorted,
};
use crate::limbs::Order;
use crate::matrix::vals;
use crate::payload::strings;
use crate::rounding::HpValue;
use crate::tridiagonal::is_square_of;
use crate::text::{
    all_digits, chars_of, ends_with, find, find_last, first_at, has_at, is_digit, last_at,
    lemma_number_text, law_number_reads_back, number_of_text, number_text, occurs_at, parse_number,
    push_number, push_two_digit, starts_with, text_starts_with, two_digit_text,
};
use vstd::prelude::*;
use vstd::string::*;

verus! {

/// Most bytes of one part of a split archive.
pub const PART_BYTE_LIMIT: usize = 94_371_840;

/// Schema of the cached forms.
pub const TAU_SCHEMA: u64 = 1;

/// Name of the file that holds a form: `lambda` is the text that names lambda-squared.
pub open spec fn file_name(lambda: Seq<char>, n_modes: nat, prec: nat) -> Seq<char> {
    "lambda_sq"@ + lambda + "_nmodes"@ + number_text(n_modes) + "_prec"@ + number_text(prec)
        + ".json"@
}

/// Name of the file that holds a form.
pub fn cache_filename(lambda: &str, n_modes: usize, prec: u32) -> (r: String)
    ensures
        r@ == file_name(lambda@, n_modes as nat, prec as nat),
{
    let mut t: String = "lambda_sq".to_owned();
    t.append(lambda);
    t.append("_nmodes");
    push_number(&mut t, n_modes as u64);
    t.append("_prec");
    push_number(&mut t, prec as u64);
    t.append(".json");
    t
}

/// Name of the archive of a file.
pub fn archive_name(entry_name: &str) -> (r: String)
    ensures
        r@ == entry_name@ + ".zip"@,
{
    let mut t: String = entry_name.to_owned();
    t.append(".zip");
    t
}

/// Name of a part of a split archive.
pub open spec fn part_file(entry: Seq<char>, i: nat) -> Seq<char> {
    entry + ".zip.part"@ + two_digit_text(i)
}

/// Name of a part of a split archive.
pub fn part_name(entry_name: &str, i: usize) -> (r: String)
    ensures
        r@ == part_file(entry_name@, i as nat),
{
    let mut t: String = entry_name.to_owned();
    t.append(".zip.part");
    push_two_digit(&mut t, i as u64);
    t
}

/// How a form is stored in a file.
#[derive(Clone, Copy, Debug, PartialEq, Eq, Structural)]
pub enum FileKind {
    Json,
    Zip,
    Part,
}

/// What a file name says, as mathematics.
pub struct NameView {
    pub lambda: Seq<char>,
    pub n_modes: nat,
    pub prec: nat,
    pub kind: FileKind,
}

/// What a file name says.
#[derive(Debug)]
pub struct CacheFileName {
    pub lambda: String,
    pub n_modes: usize,
    pub prec: u32,
    pub kind: FileKind,
}

impl View for CacheFileName {
    type V = NameView;

    open spec fn view(&self) -> NameView {
        NameView {
            lambda: self.lambda@,
            n_modes: self.n_modes as nat,
            prec: self.prec as nat,
            kind: self.kind,
        }
    }
}

/// Length of the stem before a part suffix: the last `.json.zip.part`, followed by digits only.
pub open spec fn part_stem(name: Seq<char>) -> Option<int> {
    let pat = ".json.zip.part"@;
    match last_at(name, pat, name.len() as int) {
        None => None,
        Some(i) => {
            let rest = name.skip(i + pat.len());
            if rest.len() == 0 || !all_digits(rest) {
                None
            } else {
                Some(i)
            }
        },
    }
}

/// Length of the stem of a file name, and the kind that its suffix says.
pub open spec fn stem_of(name: Seq<char>) -> Option<(int, FileKind)> {
    if part_stem(name) is Some {
        Some((part_stem(name)->0, FileKind::Part))
    } else if ends_with(name, ".json.zip"@) {
        Some((name.len() - ".json.zip"@.len(), FileKind::Zip))
    } else if ends_with(name, ".json"@) {
        Some((name.len() - ".json"@.len(), FileKind::Json))
    } else {
        None
    }
}

/// What a file name says; `None` where it is not of the expected form.
pub open spec fn name_reading(name: Seq<char>) -> Option<NameView> {
    match stem_of(name) {
        None => None,
        Some((end, kind)) => {
            let stem = name.take(end);
            let head = "lambda_sq"@;
            let modes = "_nmodes"@;
            let bits = "_prec"@;
            if !starts_with(stem, head) {
                None
            } else {
                match first_at(stem, modes, head.len() as int) {
                    None => None,
                    Some(i) => match first_at(stem, bits, i + modes.len()) {
                        None => None,
                        Some(j) => {
                            let n = number_of_text(
                                stem.subrange(i + modes.len(), j),
                                usize::MAX as nat,
                            );
                            let p = number_of_text(
                                stem.subrange(j + bits.len(), stem.len() as int),
                                u32::MAX as nat,
                            );
                            if n is None || p is None {
                                None
                            } else {
                                Some(
                                    NameView {
                                        lambda: stem.subrange(head.len() as int, i),
                                        n_modes: n->0,
                                        prec: p->0,
                                        kind,
                                    },
                                )
                            }
                        },
                    },
                }
            }
        },
    }
}

fn find_part_stem(chars: &Vec<char>) -> (r: Option<usize>)
    ensures
        match r {
            None => part_stem(chars@) is None,
            Some(i) => part_stem(chars@) == Some(i as int) && i <= chars.len(),
        },
{
    let pat: Vec<char> = chars_of(".json.zip.part");
    match find_last(chars, &pat) {
        None => None,
        Some(i) => {
            let start: usize = i + pat.len();
            let ghost rest = chars@.skip(start as int);
            if start == chars.len() {
                return None;
            }
            let mut k: usize = start;
            while k < chars.len()
                invariant
                    start <= k <= chars.len(),
                    start < chars.len(),
                    start == i + pat.len(),
                    pat@ == ".json.zip.part"@,
                    last_at(chars@, pat@, chars@.len() as int) == Some(i as int),
                    rest == chars@.skip(start as int),
                    forall|j: int| 0 <= j < k - start ==> is_digit(#[trigger] rest[j]),
                decreases chars.len() - k,
            {
                let code: u32 = chars[k] as u32;
                if code < 48 || code > 57 {
                    assert(!is_digit(rest[k - start]));
                    return None;
                }
                k = k + 1;
            }
            Some(i)
        },
    }
}

fn find_stem(chars: &Vec<char>) -> (r: Option<(usize, FileKind)>)
    ensures
        match r {
            None => stem_of(chars@) is None,
            Some(v) => stem_of(chars@) == Some((v.0 as int, v.1)) && v.0 <= chars.len(),
        },
{
    match find_part_stem(chars) {
        Some(i) => {
            return Some((i, FileKind::Part));
        },
        None => {},
    }
    let zipped: Vec<char> = chars_of(".json.zip");
    if zipped.len() <= chars.len() && has_at(chars, &zipped, chars.len() - zipped.len()) {
        return Some((chars.len() - zipped.len(), FileKind::Zip));
    }
    let plain: Vec<char> = chars_of(".json");
    if plain.len() <= chars.len() && has_at(chars, &plain, chars.len() - plain.len()) {
        return Some((chars.len() - plain.len(), FileKind::Json));
    }
    None
}

/// Reads a file name.
pub fn parse_filename(name: &str) -> (r: Option<CacheFileName>)
    ensures
        match r {
            None => name_reading(name@) is None,
            Some(v) => name_reading(name@) == Some(v@),
        },
{
    let mut chars: Vec<char> = chars_of(name);
    let (end, kind): (usize, FileKind) = match find_stem(&chars) {
        None => {
            return None;
        },
        Some(v) => v,
    };
    chars.truncate(end);
    let ghost stem = name@.take(end as int);
    assert(chars@ =~= stem);
    let head: Vec<char> = chars_of("lambda_sq");
    let modes: Vec<char> = chars_of("_nmodes");
    let bits: Vec<char> = chars_of("_prec");
    if !has_at(&chars, &head, 0) {
        return None;
    }
    let i: usize = match find(&chars, &modes, head.len()) {
        None => {
            return None;
        },
        Some(v) => v,
    };
    let j: usize = match find(&chars, &bits, i + modes.len()) {
        None => {
            return None;
        },
        Some(v) => v,
    };
    let n: Option<u64> = parse_number(&chars, i + modes.len(), j, usize::MAX as u64);
    let p: Option<u64> = parse_number(&chars, j + bits.len(), chars.len(), u32::MAX as u64);
    match (n, p) {
        (Some(n_modes), Some(prec)) => {
            let lambda: String = name.substring_char(head.len(), i).to_owned();
            assert(lambda@ =~= stem.subrange(head@.len() as int, i as int));
            proof {
                lemma_number_bound(
                    stem.subrange(i + modes@.len(), j as int),
                    usize::MAX as nat,
                );
                lemma_number_bound(
                    stem.subrange(j + bits@.len(), stem.len() as int),
                    u32::MAX as nat,
                );
            }
            Some(CacheFileName { lambda, n_modes: n_modes as usize, prec: prec as u32, kind })
        },
        _ => None,
    }
}

proof fn lemma_number_bound(s: Seq<char>, max: nat)
    ensures
        number_of_text(s, max) matches Some(n) ==> n <= max,
{
}

/// Whether a text has no underscore.
pub open spec fn no_underscore(s: Seq<char>) -> bool {
    forall|i: int| 0 <= i < s.len() ==> #[trigger] s[i] != '_'
}

proof fn lemma_first_underscore(s: Seq<char>, pat: Seq<char>, from: int, at: int)
    requires
        0 <= from <= at,
        pat.len() > 0,
        pat[0] == '_',
        occurs_at(s, pat, at),
        forall|i: int| from <= i < at ==> #[trigger] s[i] != '_',
    ensures
        first_at(s, pat, from) == Some(at),
    decreases at - from,
{
    if from < at {
        if occurs_at(s, pat, from) {
            assert(s.subrange(from, from + pat.len())[0] == pat[0]);
            assert(s[from] == '_');
        }
        lemma_first_underscore(s, pat, from + 1, at);
    }
}

/// A name that ends with `.json` has no part suffix.
proof fn lemma_no_part(name: Seq<char>)
    requires
        ends_with(name, ".json"@),
    ensures
        part_stem(name) is None,
{
    reveal_strlit(".json");
    reveal_strlit(".json.zip.part");
    let pat = ".json.zip.part"@;
    lemma_last_occurs(name, pat, name.len() as int);
    if part_stem(name) is Some {
        let i = last_at(name, pat, name.len() as int)->0;
        let rest = name.skip(i + pat.len());
        assert(is_digit(rest[rest.len() - 1]));
        assert(rest[rest.len() - 1] == name[name.len() - 1]);
        assert(name.subrange(name.len() - 5, name.len() as int)[4] == ".json"@[4]);
        assert(name[name.len() - 1] == 'n');
    }
}

proof fn lemma_last_occurs(s: Seq<char>, pat: Seq<char>, from: int)
    ensures
        last_at(s, pat, from) matches Some(i) ==> occurs_at(s, pat, i),
    decreases from + 1,
{
    if from >= 0 {
        lemma_last_occurs(s, pat, from - 1);
    }
}

/// The name of a file says what the file was named for.
pub proof fn law_filename_reads_back(lambda: Seq<char>, n_modes: nat, prec: nat)
    requires
        no_underscore(lambda),
        n_modes <= usize::MAX,
        prec <= u32::MAX,
    ensures
        name_reading(file_name(lambda, n_modes, prec)) == Some(
            NameView { lambda, n_modes, prec, kind: FileKind::Json },
        ),
{
    reveal_strlit("lambda_sq");
    reveal_strlit("_nmodes");
    reveal_strlit("_prec");
    reveal_strlit(".json");
    reveal_strlit(".json.zip");
    let head = "lambda_sq"@;
    let modes = "_nmodes"@;
    let bits = "_prec"@;
    let tail = ".json"@;
    let n = number_text(n_modes);
    let p = number_text(prec);
    let name = file_name(lambda, n_modes, prec);
    let stem = head + lambda + modes + n + bits + p;
    assert(name =~= stem + tail);
    let end = stem.len() as int;
    assert(name.subrange(end, end + tail.len()) =~= tail);
    assert(ends_with(name, tail));
    lemma_no_part(name);
    if ends_with(name, ".json.zip"@) {
        let z = ".json.zip"@;
        assert(name.subrange(name.len() - z.len(), name.len() as int)[8] == z[8]);
        assert(name[name.len() - 1] == tail[4]);
    }
    assert(stem_of(name) == Some((end, FileKind::Json)));
    assert(name.take(end) =~= stem);
    assert(stem.subrange(0, head.len() as int) =~= head);
    let i = (head.len() + lambda.len()) as int;
    assert(stem.subrange(i, i + modes.len()) =~= modes);
    assert forall|k: int| head.len() <= k < i implies #[trigger] stem[k] != '_' by {
        assert(stem[k] == lambda[k - head.len()]);
    }
    lemma_first_underscore(stem, modes, head.len() as int, i);
    let j = i + modes.len() + n.len();
    assert(stem.subrange(j, j + bits.len()) =~= bits);
    lemma_number_text(n_modes);
    lemma_number_text(prec);
    assert forall|k: int| i + modes.len() <= k < j implies #[trigger] stem[k] != '_' by {
        assert(stem[k] == n[k - i - modes.len()]);
        assert(is_digit(n[k - i - modes.len()]));
    }
    lemma_first_underscore(stem, bits, i + modes.len(), j);
    assert(stem.subrange(i + modes.len(), j) =~= n);
    assert(stem.subrange(j + bits.len(), stem.len() as int) =~= p);
    assert(stem.subrange(head.len() as int, i) =~= lambda);
    law_number_reads_back(n_modes, usize::MAX as nat);
    law_number_reads_back(prec, u32::MAX as nat);
}

/// Number of parts that bytes are split into.
pub open spec fn part_count(len: int, limit: int) -> int {
    (len + limit - 1) / limit
}

/// One part of bytes.
pub open spec fn part_bytes(s: Seq<u8>, limit: int, i: int) -> Seq<u8> {
    let end = (i + 1) * limit;
    s.subrange(
        i * limit,
        if end < s.len() {
            end
        } else {
            s.len() as int
        },
    )
}

/// The first `n` parts, one after the other.
pub open spec fn joined_parts(s: Seq<u8>, limit: int, n: nat) -> Seq<u8>
    decreases n,
{
    if n == 0 {
        Seq::<u8>::empty()
    } else {
        joined_parts(s, limit, (n - 1) as nat) + part_bytes(s, limit, n - 1)
    }
}

proof fn lemma_part_ends(len: int, limit: int, n: int)
    requires
        limit > 0,
        len > 0,
        0 <= n <= part_count(len, limit),
    ensures
        n < part_count(len, limit) ==> n * limit < len,
        n == part_count(len, limit) ==> n * limit >= len && (n - 1) * limit < len,
{
    let c = part_count(len, limit);
    vstd::arithmetic::div_mod::lemma_fundamental_div_mod(len + limit - 1, limit);
    vstd::arithmetic::div_mod::lemma_mod_bound(len + limit - 1, limit);
    let r = (len + limit - 1) % limit;
    assert(c * limit == len + limit - 1 - r) by (nonlinear_arith)
        requires
            len + limit - 1 == limit * c + r,
    ;
    assert(n < c ==> n * limit <= (c - 1) * limit) by (nonlinear_arith)
        requires
            limit > 0,
    ;
    assert((c - 1) * limit == c * limit - limit) by (nonlinear_arith);
}

proof fn lemma_joined(s: Seq<u8>, limit: int, n: nat)
    requires
        limit > 0,
        s.len() > 0,
        n <= part_count(s.len() as int, limit),
    ensures
        joined_parts(s, limit, n) == s.take(
            if n * limit < s.len() {
                n * limit
            } else {
                s.len() as int
            },
        ),
    decreases n,
{
    let c = part_count(s.len() as int, limit);
    if n == 0 {
        assert(0 * limit == 0) by (nonlinear_arith);
        assert(s.take(0) =~= Seq::<u8>::empty());
    } else {
        let m = (n - 1) as nat;
        lemma_joined(s, limit, m);
        lemma_part_ends(s.len() as int, limit, m as int);
        assert(m * limit < s.len());
        assert(m * limit >= 0) by (nonlinear_arith)
            requires
                limit > 0,
                m >= 0,
        ;
        assert((m + 1) * limit == m * limit + limit) by (nonlinear_arith);
        let end = if n * limit < s.len() {
            n * limit
        } else {
            s.len() as int
        };
        assert(s.take(m * limit) + s.subrange(m * limit, end) =~= s.take(end));
    }
}

/// The parts of an archive, one after the other, are the archive.
pub proof fn law_parts_join_to_the_whole(s: Seq<u8>, limit: int)
    requires
        limit > 0,
        s.len() > 0,
    ensures
        joined_parts(s, limit, part_count(s.len() as int, limit) as nat) == s,
{
    let c = part_count(s.len() as int, limit);
    vstd::arithmetic::div_mod::lemma_div_pos_is_pos(s.len() + limit - 1, limit);
    lemma_part_ends(s.len() as int, limit, c);
    lemma_joined(s, limit, c as nat);
    assert(s.take(s.len() as int) =~= s);
}

/// Part names sort in the order of the parts, as long as two digits number them.
pub proof fn law_part_names_sort(entry: Seq<char>, i: nat, j: nat)
    requires
        i < j < 100,
    ensures
        comes_before(part_file(entry, i), part_file(entry, j)),
{
    let base = entry + ".zip.part"@;
    let x = two_digit_text(i);
    let y = two_digit_text(j);
    lemma_two_digits(i);
    lemma_two_digits(j);
    lemma_common_prefix(base, x, y, 0);
    let k = base.len() as int;
    assert((base + x)[k] == x[0] && (base + y)[k] == y[0]);
    assert((base + x)[k + 1] == x[1] && (base + y)[k + 1] == y[1]);
    reveal_with_fuel(crate::lexical::order_from, 3);
}

proof fn lemma_two_digits(n: nat)
    requires
        n < 100,
    ensures
        two_digit_text(n).len() == 2,
        two_digit_text(n)[0] as u32 == 48 + n / 10,
        two_digit_text(n)[1] as u32 == 48 + n % 10,
{
    let a = n / 10;
    let b = n % 10;
    assert((48 + a) as char as u32 == 48 + a);
    assert((48 + b) as char as u32 == 48 + b);
    if n >= 10 {
        assert(number_text(a) =~= seq![crate::text::digit_char(a)]);
        assert(number_text(n) =~= seq![crate::text::digit_char(a), crate::text::digit_char(b)]);
    }
}

proof fn lemma_common_prefix(base: Seq<char>, x: Seq<char>, y: Seq<char>, i: int)
    requires
        0 <= i <= base.len(),
    ensures
        crate::lexical::order_from(base + x, base + y, i) == crate::lexical::order_from(
            base + x,
            base + y,
            base.len() as int,
        ),
    decreases base.len() - i,
{
    if i < base.len() {
        assert((base + x)[i] == base[i] && (base + y)[i] == base[i]);
        lemma_common_prefix(base, x, y, i + 1);
    }
}

/// A file to be written.
#[derive(Debug)]
pub struct CacheFile {
    pub name: String,
    pub bytes: Vec<u8>,
}

/// A file, as mathematics.
pub struct FileView {
    pub name: Seq<char>,
    pub bytes: Seq<u8>,
}

impl View for CacheFile {
    type V = FileView;

    open spec fn view(&self) -> FileView {
        FileView { name: self.name@, bytes: self.bytes@ }
    }
}

pub open spec fn files(s: Seq<CacheFile>) -> Seq<FileView> {
    Seq::new(s.len(), |i: int| s[i]@)
}

/// The files that hold an archive: one where it is small enough, numbered parts otherwise.
pub open spec fn archive_files(zip: Seq<u8>, entry: Seq<char>, limit: int) -> Seq<FileView> {
    if zip.len() <= limit {
        seq![FileView { name: entry + ".zip"@, bytes: zip }]
    } else {
        Seq::new(
            part_count(zip.len() as int, limit) as nat,
            |i: int| FileView { name: part_file(entry, i as nat), bytes: part_bytes(zip, limit, i) },
        )
    }
}

fn slice_of(bytes: &Vec<u8>, from: usize, to: usize) -> (r: Vec<u8>)
    requires
        from <= to <= bytes.len(),
    ensures
        r@ == bytes@.subrange(from as int, to as int),
{
    let mut out: Vec<u8> = Vec::with_capacity(to - from);
    let mut i: usize = from;
    while i < to
        invariant
            from <= i <= to <= bytes.len(),
            out@ == bytes@.subrange(from as int, i as int),
        decreases to - i,
    {
        out.push(bytes[i]);
        assert(bytes@.subrange(from as int, i + 1).drop_last() =~= bytes@.subrange(
            from as int,
            i as int,
        ));
        i = i + 1;
    }
    out
}

/// Lays an archive out in files of at most `limit` bytes.
pub fn split_archive(zip: Vec<u8>, entry_name: &str, limit: usize) -> (r: Vec<CacheFile>)
    requires
        limit > 0,
    ensures
        files(r@) == archive_files(zip@, entry_name@, limit as int),
{
    let mut out: Vec<CacheFile> = Vec::new();
    if zip.len() <= limit {
        let ghost z = zip@;
        out.push(CacheFile { name: archive_name(entry_name), bytes: zip });
        assert(files(out@) =~= archive_files(z, entry_name@, limit as int));
        return out;
    }
    let ghost goal = archive_files(zip@, entry_name@, limit as int);
    let ghost count = part_count(zip@.len() as int, limit as int);
    let mut start: usize = 0;
    let mut i: usize = 0;
    proof {
        assert(0 * limit == 0) by (nonlinear_arith);
        vstd::arithmetic::div_mod::lemma_div_pos_is_pos(zip@.len() + limit - 1, limit as int);
        lemma_part_ends(zip@.len() as int, limit as int, count);
        assert(count > 0) by (nonlinear_arith)
            requires
                count * limit > 0,
                limit > 0,
        ;
    }
    while start < zip.len()
        invariant
            limit > 0,
            zip.len() > limit,
            0 <= i <= count,
            start <= zip.len(),
            count == part_count(zip@.len() as int, limit as int),
            start == (if i * limit < zip.len() {
                i * limit
            } else {
                zip.len() as int
            }),
            start < zip.len() <==> i < count,
            out.len() == i,
            goal == archive_files(zip@, entry_name@, limit as int),
            forall|k: int| 0 <= k < i ==> (#[trigger] files(out@)[k]) == goal[k],
        decreases zip.len() - start,
    {
        let end: usize = if zip.len() - start > limit {
            start + limit
        } else {
            zip.len()
        };
        proof {
            assert((i + 1) * limit == i * limit + limit) by (nonlinear_arith);
            assert(i <= i * limit) by (nonlinear_arith)
                requires
                    limit >= 1,
                    i >= 0,
            ;
            lemma_part_ends(zip@.len() as int, limit as int, i as int);
            lemma_part_ends(zip@.len() as int, limit as int, i + 1);
        }
        let ghost before = out@;
        out.push(
            CacheFile { name: part_name(entry_name, i), bytes: slice_of(&zip, start, end) },
        );
        assert forall|k: int| 0 <= k < i + 1 implies (#[trigger] files(out@)[k]) == goal[k] by {
            if k < i {
                assert(files(before)[k] == goal[k]);
            }
        }
        start = end;
        i = i + 1;
    }
    assert(files(out@) =~= goal);
    out
}

/// What saving a form writes: nothing where the mode keeps no files or no archive is made.
pub open spec fn saved_files(json: Seq<char>, entry: Seq<char>, mode: CacheMode) -> Seq<FileView> {
    let zip = match zip_archive(json, entry) {
        Some(z) => z,
        None => Seq::<u8>::empty(),
    };
    if !(mode is JsonZip) || zip.len() == 0 {
        Seq::<FileView>::empty()
    } else {
        archive_files(zip, entry, PART_BYTE_LIMIT as int)
    }
}

/// The files that saving a form writes.
pub fn files_to_save(json: &str, entry_name: &str, mode: CacheMode) -> (r: Vec<CacheFile>)
    requires
        plain_name(entry_name@),
        entry_name@.len() <= ENTRY_NAME_LIMIT,
    ensures
        files(r@) == saved_files(json@, entry_name@, mode),
        zip_archive(json@, entry_name@) matches Some(z) ==> zip_text(z, entry_name@) == Some(
            json@,
        ),
{
    let zip: Vec<u8> = compress_to_zip(json, entry_name);
    if !mode.uses_disk() || zip.len() == 0 {
        let none: Vec<CacheFile> = Vec::new();
        assert(files(none@) =~= Seq::<FileView>::empty());
        return none;
    }
    split_archive(zip, entry_name, PART_BYTE_LIMIT)
}

/// Whether a name is that of a part of an archive.
pub fn is_part_of(name: &str, entry_name: &str) -> (r: bool)
    ensures
        r == starts_with(name@, entry_name@ + ".zip.part"@),
{
    let mut prefix: String = entry_name.to_owned();
    prefix.append(".zip.part");
    text_starts_with(name, prefix.as_str())
}

/// The names, among the first `n`, of parts of an archive.
pub open spec fn parts_among(names: Seq<Seq<char>>, entry: Seq<char>, n: nat) -> Seq<Seq<char>>
    decreases n,
{
    if n == 0 {
        Seq::empty()
    } else {
        let before = parts_among(names, entry, (n - 1) as nat);
        if starts_with(names[n - 1], entry + ".zip.part"@) {
            before.push(names[n - 1])
        } else {
            before
        }
    }
}

/// The names of the parts of an archive among the names of a directory, sorted.
pub fn part_names(names: &Vec<String>, entry_name: &str) -> (r: Vec<String>)
    ensures
        texts_sorted(strings(r@)),
        strings(r@).to_multiset() == parts_among(
            strings(names@),
            entry_name@,
            names@.len(),
        ).to_multiset(),
{
    let ghost given = strings(names@);
    let mut found: Vec<String> = Vec::new();
    let mut i: usize = 0;
    assert(strings(found@) =~= Seq::<Seq<char>>::empty());
    while i < names.len()
        invariant
            i <= names.len(),
            given == strings(names@),
            strings(found@) == parts_among(given, entry_name@, i as nat),
        decreases names.len() - i,
    {
        let ghost before = strings(found@);
        if is_part_of(names[i].as_str(), entry_name) {
            found.push(names[i].clone());
            assert(strings(found@) =~= before.push(given[i as int]));
        }
        i = i + 1;
    }
    sort_texts(found)
}

/// Parts joined in the order given.
pub open spec fn joined(s: Seq<Vec<u8>>, n: nat) -> Seq<u8>
    decreases n,
{
    if n == 0 {
        Seq::<u8>::empty()
    } else {
        joined(s, (n - 1) as nat) + s[n - 1]@
    }
}

/// Joins parts in the order given.
pub fn join_parts(parts: &Vec<Vec<u8>>) -> (r: Vec<u8>)
    ensures
        r@ == joined(parts@, parts@.len()),
{
    let mut out: Vec<u8> = Vec::new();
    let mut i: usize = 0;
    while i < parts.len()
        invariant
            i <= parts.len(),
            out@ == joined(parts@, i as nat),
        decreases parts.len() - i,
    {
        let mut j: usize = 0;
        while j < parts[i].len()
            invariant
                i < parts.len(),
                j <= parts@[i as int]@.len(),
                out@ == joined(parts@, i as nat) + parts@[i as int]@.take(j as int),
            decreases parts@[i as int]@.len() - j,
        {
            out.push(parts[i][j]);
            assert(parts@[i as int]@.take(j + 1) =~= parts@[i as int]@.take(j as int).push(
                parts@[i as int]@[j as int],
            ));
            j = j + 1;
        }
        assert(parts@[i as int]@.take(parts@[i as int]@.len() as int) =~= parts@[i as int]@);
        i = i + 1;
    }
    out
}

/// The entry texts that an envelope holds for a form; `None` where a member is missing, the
/// schema is another one, the file is older than the given version, or the matrix has the wrong
/// size.
pub open spec fn envelope_entries(
    o: Option<Seq<(Seq<char>, FieldView)>>,
    n_modes: int,
    oldest: Seq<char>,
) -> Option<Seq<Seq<char>>> {
    let dim = 2 * n_modes + 1;
    match o {
        None => None,
        Some(m) => match member(m, "toolkit_version"@, 0) {
            Some(FieldView::Text(v)) => if member(m, "schema_version"@, 0) != Some(
                FieldView::Number(TAU_SCHEMA as nat),
            ) || older(v, oldest) {
                None
            } else {
                text_list(m, "matrix"@, dim * dim)
            },
            _ => None,
        },
    }
}

/// The entry texts of an envelope that was read.
pub fn entries_of_envelope(o: &JsonObject, n_modes: usize, oldest: &str) -> (r: Option<Vec<String>>)
    requires
        2 * n_modes + 1 <= usize::MAX,
    ensures
        match r {
            None => envelope_entries(Some(o@), n_modes as int, oldest@) is None,
            Some(v) => envelope_entries(Some(o@), n_modes as int, oldest@) == Some(strings(v@)),
        },
{
    let dim: usize = 2 * n_modes + 1;
    match o.number("schema_version") {
        Some(n) => {
            if n != TAU_SCHEMA {
                return None;
            }
        },
        None => {
            return None;
        },
    }
    let version: &String = match o.text("toolkit_version") {
        None => {
            return None;
        },
        Some(v) => v,
    };
    if version_is_older(version.as_str(), oldest) {
        return None;
    }
    match o.list_len("matrix") {
        None => None,
        Some(len) => if is_square_of(len, dim) {
            o.texts("matrix", len)
        } else {
            None
        },
    }
}

/// The entry texts of a cached form: the text of the file is parsed, and its members checked.
pub fn parse_json(data: &str, n_modes: usize, oldest: &str) -> (r: Option<Vec<String>>)
    requires
        2 * n_modes + 1 <= usize::MAX,
    ensures
        match r {
            None => envelope_entries(json_members(data@), n_modes as int, oldest@) is None,
            Some(v) => envelope_entries(json_members(data@), n_modes as int, oldest@) == Some(
                strings(v@),
            ),
        },
{
    match JsonObject::parse(data) {
        None => None,
        Some(o) => entries_of_envelope(&o, n_modes, oldest),
    }
}

/// The members of the envelope of a form.
pub open spec fn form_members(
    entries: Seq<Seq<char>>,
    lambda: Seq<char>,
    lambda_mode: Seq<char>,
    n_modes: nat,
    prec: nat,
    version: Seq<char>,
) -> Seq<(Seq<char>, FieldView)> {
    seq![
        ("schema_version"@, FieldView::Number(TAU_SCHEMA as nat)),
        ("toolkit_version"@, FieldView::Text(version)),
        ("lambda_sq"@, FieldView::Decimal(lambda)),
        ("lambda_sq_mode"@, FieldView::Text(lambda_mode)),
        ("n_modes"@, FieldView::Number(n_modes)),
        ("precision_bits"@, FieldView::Number(prec)),
        ("matrix"@, list_of(entries)),
    ]
}

proof fn lemma_form_members(
    entries: Seq<Seq<char>>,
    lambda: Seq<char>,
    lambda_mode: Seq<char>,
    n_modes: nat,
    prec: nat,
    version: Seq<char>,
)
    ensures
        writable(form_members(entries, lambda, lambda_mode, n_modes, prec, version)),
{
    let m = form_members(entries, lambda, lambda_mode, n_modes, prec, version);
    reveal_strlit("schema_version");
    reveal_strlit("toolkit_version");
    reveal_strlit("lambda_sq");
    reveal_strlit("lambda_sq_mode");
    reveal_strlit("n_modes");
    reveal_strlit("precision_bits");
    reveal_strlit("matrix");
    assert(m.len() == 7);
    assert(m[0].0.len() == 14 && m[0].0[0] == 's');
    assert(m[1].0.len() == 15);
    assert(m[2].0.len() == 9);
    assert(m[3].0.len() == 14 && m[3].0[0] == 'l');
    assert(m[4].0.len() == 7);
    assert(m[5].0.len() == 14 && m[5].0[0] == 'p');
    assert(m[6].0.len() == 6);
    assert forall|i: int| 0 <= i < m.len() implies storable((#[trigger] m[i]).1) by {}
}

/// The text of the envelope of a form, from the texts of its entries and the text of
/// lambda-squared as a number; empty where that is no number.
pub fn serialize_to_json(
    entries: &Vec<String>,
    lambda: &str,
    lambda_mode: &str,
    n_modes: usize,
    prec: u32,
    toolkit_version: &str,
) -> (r: String)
    ensures
        ({
            let given = form_members(
                strings(entries@),
                lambda@,
                lambda_mode@,
                n_modes as nat,
                prec as nat,
                toolkit_version@,
            );
            r@ == written_text(given) && (json_written(given) is Some ==> holds_members(r@, given))
        }),
        r@.len() > 0 && entries@.len() == (2 * n_modes + 1) * (2 * n_modes + 1) ==> forall|
            oldest: Seq<char>,
        |
            !older(toolkit_version@, oldest) ==> #[trigger] envelope_entries(
                json_members(r@),
                n_modes as int,
                oldest,
            ) == Some(strings(entries@)),
{
    let ghost given = form_members(
        strings(entries@),
        lambda@,
        lambda_mode@,
        n_modes as nat,
        prec as nat,
        toolkit_version@,
    );
    let mut m: Vec<(String, JsonField)> = Vec::new();
    m.push(("schema_version".to_owned(), JsonField::Number(TAU_SCHEMA)));
    m.push(("toolkit_version".to_owned(), JsonField::Text(toolkit_version.to_owned())));
    m.push(("lambda_sq".to_owned(), JsonField::Decimal(lambda.to_owned())));
    m.push(("lambda_sq_mode".to_owned(), JsonField::Text(lambda_mode.to_owned())));
    m.push(("n_modes".to_owned(), JsonField::Number(n_modes as u64)));
    m.push(("precision_bits".to_owned(), JsonField::Number(prec as u64)));
    m.push(("matrix".to_owned(), text_field(entries)));
    proof {
        lemma_form_members(
            strings(entries@),
            lambda@,
            lambda_mode@,
            n_modes as nat,
            prec as nat,
            toolkit_version@,
        );
    }
    assert(members(m@) =~= given);
    let r: String = write_object(&m);
    proof {
        if r@.len() > 0 && entries@.len() == (2 * n_modes + 1) * (2 * n_modes + 1) {
            assert forall|oldest: Seq<char>| !older(
                toolkit_version@,
                oldest,
            ) implies #[trigger] envelope_entries(json_members(r@), n_modes as int, oldest) == Some(
                strings(entries@),
            ) by {
                law_saved_form_reads_back(
                    strings(entries@),
                    lambda@,
                    lambda_mode@,
                    n_modes as nat,
                    prec as nat,
                    toolkit_version@,
                    oldest,
                    r@,
                );
            }
        }
    }
    r
}

/// What is read of a form gives back what was saved: where the envelope of a square form was
/// written by a toolkit that is not too old, and read under its name, the entries come back.
pub proof fn law_saved_form_reads_back(
    entries: Seq<Seq<char>>,
    lambda: Seq<char>,
    lambda_mode: Seq<char>,
    n_modes: nat,
    prec: nat,
    version: Seq<char>,
    oldest: Seq<char>,
    text: Seq<char>,
)
    requires
        holds_members(text, form_members(entries, lambda, lambda_mode, n_modes, prec, version)),
        entries.len() == (2 * n_modes + 1) * (2 * n_modes + 1),
        !older(version, oldest),
    ensures
        envelope_entries(json_members(text), n_modes as int, oldest) == Some(entries),
{
    let m = json_members(text)->0;
    let given = form_members(entries, lambda, lambda_mode, n_modes, prec, version);
    assert(reads_back(given[0].1, member(m, given[0].0, 0)));
    assert(reads_back(given[1].1, member(m, given[1].0, 0)));
    assert(reads_back(given[6].1, member(m, given[6].0, 0)));
    lemma_list_reads_back(m, "matrix"@, entries);
}

/// The entry texts of an archive with one entry.
pub open spec fn archive_entries(
    bytes: Seq<u8>,
    entry: Seq<char>,
    n_modes: int,
    oldest: Seq<char>,
) -> Option<Seq<Seq<char>>> {
    match zip_text(bytes, entry) {
        None => None,
        Some(t) => envelope_entries(json_members(t), n_modes, oldest),
    }
}

/// The entry texts of an archive with one entry.
pub fn read_single_zip(bytes: &Vec<u8>, entry_name: &str, n_modes: usize, oldest: &str) -> (r: Option<
    Vec<String>,
>)
    requires
        2 * n_modes + 1 <= usize::MAX,
    ensures
        match r {
            None => archive_entries(bytes@, entry_name@, n_modes as int, oldest@) is None,
            Some(v) => archive_entries(bytes@, entry_name@, n_modes as int, oldest@) == Some(
                strings(v@),
            ),
        },
{
    match read_zip_text(bytes, entry_name) {
        None => None,
        Some(t) => parse_json(t.as_str(), n_modes, oldest),
    }
}

/// The entry texts of a split archive.
pub fn read_split_zip_parts(
    parts: &Vec<Vec<u8>>,
    entry_name: &str,
    n_modes: usize,
    oldest: &str,
) -> (r: Option<Vec<String>>)
    requires
        2 * n_modes + 1 <= usize::MAX,
    ensures
        match r {
            None => archive_entries(
                joined(parts@, parts@.len()),
                entry_name@,
                n_modes as int,
                oldest@,
            ) is None,
            Some(v) => archive_entries(
                joined(parts@, parts@.len()),
                entry_name@,
                n_modes as int,
                oldest@,
            ) == Some(strings(v@)),
        },
{
    let bytes: Vec<u8> = join_parts(parts);
    read_single_zip(&bytes, entry_name, n_modes, oldest)
}

/// Whether a form that was read may be used.
pub open spec fn usable(m: Option<Seq<HpValue>>, n_modes: int, p: nat) -> bool {
    m is Some && structural_fault(m->0, n_modes, p) is None
}

/// The values of a form that may be absent.
pub open spec fn optional_vals(m: Option<Vec<HpFloat>>) -> Option<Seq<HpValue>> {
    match m {
        None => None,
        Some(v) => Some(vals(v@)),
    }
}

/// The form that loading gives: the single archive where it is sound, then the split one, and
/// none where the mode reads no archives.
pub fn loaded_form(
    mode: CacheMode,
    single: Option<Vec<HpFloat>>,
    split: Option<Vec<HpFloat>>,
    n_modes: usize,
    prec: u32,
) -> (r: Option<Vec<HpFloat>>)
    requires
        prec >= 1,
        2 * n_modes + 1 <= usize::MAX,
    ensures
        optional_vals(r) == if !(mode is JsonZip) {
            None::<Seq<HpValue>>
        } else if usable(optional_vals(single), n_modes as int, prec as nat) {
            optional_vals(single)
        } else if usable(optional_vals(split), n_modes as int, prec as nat) {
            optional_vals(split)
        } else {
            None
        },
{
    if !mode.uses_disk() {
        return None;
    }
    match single {
        Some(m) => match structural_check(&m, n_modes, prec) {
            None => {
                return Some(m);
            },
            Some(_) => {},
        },
        None => {},
    }
    match split {
        Some(m) => match structural_check(&m, n_modes, prec) {
            None => Some(m),
            Some(_) => None,
        },
        None => None,
    }
}

/// The bytes of the first `n` files, one after the other.
pub open spec fn files_joined(s: Seq<FileView>, n: nat) -> Seq<u8>
    decreases n,
{
    if n == 0 {
        Seq::<u8>::empty()
    } else {
        files_joined(s, (n - 1) as nat) + s[n - 1].bytes
    }
}

proof fn lemma_files_joined(zip: Seq<u8>, entry: Seq<char>, limit: int, n: nat)
    requires
        limit > 0,
        zip.len() > limit,
        n <= part_count(zip.len() as int, limit),
    ensures
        files_joined(archive_files(zip, entry, limit), n) == joined_parts(zip, limit, n),
    decreases n,
{
    if n > 0 {
        lemma_files_joined(zip, entry, limit, (n - 1) as nat);
    }
}

/// The files of an archive, one after the other, are the archive: what is read back from them
/// is what was saved.
pub proof fn law_saved_files_read_back(zip: Seq<u8>, entry: Seq<char>, limit: int)
    requires
        limit > 0,
        zip.len() > 0,
    ensures
        ({
            let f = archive_files(zip, entry, limit);
            files_joined(f, f.len()) == zip
        }),
{
    let f = archive_files(zip, entry, limit);
    if zip.len() <= limit {
        assert(files_joined(f, 0) =~= Seq::<u8>::empty());
        assert(files_joined(f, 1) =~= zip);
    } else {
        let c = part_count(zip.len() as int, limit);
        vstd::arithmetic::div_mod::lemma_div_pos_is_pos(zip.len() + limit - 1, limit);
        lemma_files_joined(zip, entry, limit, c as nat);
        law_parts_join_to_the_whole(zip, limit);
    }
}

/// The names of files.
pub open spec fn file_names(s: Seq<FileView>) -> Seq<Seq<char>> {
    Seq::new(s.len(), |i: int| s[i].name)
}

/// A split archive reads back through its directory: where the parts of an archive in a directory
/// are those that were written for it, in whatever order the directory names them, the sorted
/// part names stand in the order of writing, and what the files hold, joined in that order, is the
/// archive. Two digits number at most a hundred parts.
pub proof fn law_split_archive_reads_back(
    zip: Seq<u8>,
    entry: Seq<char>,
    limit: int,
    names: Seq<Seq<char>>,
    picked: Seq<Seq<char>>,
    parts: Seq<Vec<u8>>,
)
    requires
        0 < limit < zip.len(),
        part_count(zip.len() as int, limit) <= 100,
        parts_among(names, entry, names.len()).to_multiset() == file_names(
            archive_files(zip, entry, limit),
        ).to_multiset(),
        texts_sorted(picked),
        picked.to_multiset() == parts_among(names, entry, names.len()).to_multiset(),
        parts.len() == picked.len(),
        ({
            let f = archive_files(zip, entry, limit);
            forall|i: int, k: int|
                0 <= i < picked.len() && 0 <= k < f.len() && picked[i] == f[k].name ==> (
                #[trigger] parts[i])@ == (#[trigger] f[k]).bytes
        }),
    ensures
        picked == file_names(archive_files(zip, entry, limit)),
        joined(parts, parts.len()) == zip,
{
    let f = archive_files(zip, entry, limit);
    let written = file_names(f);
    vstd::arithmetic::div_mod::lemma_div_pos_is_pos(zip.len() + limit - 1, limit);
    assert forall|i: int, j: int| 0 <= i < j < written.len() implies !comes_before(
        #[trigger] written[j],
        #[trigger] written[i],
    ) by {
        law_part_names_sort(entry, i as nat, j as nat);
        law_texts_are_ordered(written[i], written[j], written[i]);
        law_texts_are_ordered(written[j], written[i], written[j]);
    }
    law_sorted_texts_are_unique(picked, written);
    assert forall|i: int| 0 <= i < parts.len() implies (#[trigger] parts[i])@ == f[i].bytes by {
        assert(picked[i] == f[i].name);
    }
    lemma_joined_files(parts, f, parts.len());
    law_saved_files_read_back(zip, entry, limit);
}

proof fn lemma_joined_files(parts: Seq<Vec<u8>>, f: Seq<FileView>, n: nat)
    requires
        n <= parts.len(),
        parts.len() == f.len(),
        forall|i: int| 0 <= i < parts.len() ==> (#[trigger] parts[i])@ == f[i].bytes,
    ensures
        joined(parts, n) == files_joined(f, n),
    decreases n,
{
    if n > 0 {
        lemma_joined_files(parts, f, (n - 1) as nat);
        assert(parts[n - 1]@ == f[n - 1].bytes);
    }
}

/// A saved form loads as it was: from the archive of its envelope, whether it was kept in one file
/// or joined from parts, the texts of its entries come back.
pub proof fn law_saved_form_loads(
    entries: Seq<Seq<char>>,
    lambda: Seq<char>,
    lambda_mode: Seq<char>,
    n_modes: nat,
    prec: nat,
    version: Seq<char>,
    oldest: Seq<char>,
    json: Seq<char>,
    zip: Seq<u8>,
    entry: Seq<char>,
)
    requires
        holds_members(json, form_members(entries, lambda, lambda_mode, n_modes, prec, version)),
        entries.len() == (2 * n_modes + 1) * (2 * n_modes + 1),
        !older(version, oldest),
        zip_text(zip, entry) == Some(json),
    ensures
        archive_entries(zip, entry, n_modes as int, oldest) == Some(entries),
{
    law_saved_form_reads_back(entries, lambda, lambda_mode, n_modes, prec, version, oldest, json);
}

/// Outcome for one file, or for one set of parts.
#[derive(Debug)]
pub enum TauCacheFileStatus {
    /// The file holds a sound form.
    Sound { path: String, lambda_sq: String, n_modes: usize, prec: u32 },
    /// The name is not of the expected form.
    Skipped { path: String, reason: String },
    /// The file could not be read as a form.
    LoadFailed { path: String, lambda_sq: String, n_modes: usize, prec: u32, reason: String },
    /// The file holds a form that is not sound.
    StructurallyInvalid {
        path: String,
        lambda_sq: String,
        n_modes: usize,
        prec: u32,
        fault: StructuralFault,
    },
}

impl TauCacheFileStatus {
    pub open spec fn failed(self) -> bool {
        self is LoadFailed || self is StructurallyInvalid
    }

    fn is_failure(&self) -> (r: bool)
        ensures
            r == self.failed(),
    {
        match self {
            TauCacheFileStatus::LoadFailed { .. } => true,
            TauCacheFileStatus::StructurallyInvalid { .. } => true,
            _ => false,
        }
    }

    fn is_ok(&self) -> (r: bool)
        ensures
            r == (self is Sound),
    {
        match self {
            TauCacheFileStatus::Sound { .. } => true,
            _ => false,
        }
    }
}

/// How a set of files fared.
#[derive(Debug)]
pub struct TauCacheVerifyReport {
    pub directory: String,
    pub statuses: Vec<TauCacheFileStatus>,
}

/// How many of the first `n` files are sound.
pub open spec fn sound_files(s: Seq<TauCacheFileStatus>, n: nat) -> nat
    decreases n,
{
    if n == 0 {
        0
    } else {
        sound_files(s, (n - 1) as nat) + if s[n - 1] is Sound {
            1nat
        } else {
            0
        }
    }
}

/// The positions, among the first `n` files, of those that failed.
pub open spec fn failed_positions(s: Seq<TauCacheFileStatus>, n: nat) -> Seq<usize>
    decreases n,
{
    if n == 0 {
        Seq::<usize>::empty()
    } else {
        let before = failed_positions(s, (n - 1) as nat);
        if s[n - 1].failed() {
            before.push((n - 1) as usize)
        } else {
            before
        }
    }
}

impl TauCacheVerifyReport {
    /// Number of sound files.
    pub fn ok_count(&self) -> (r: usize)
        ensures
            r == sound_files(self.statuses@, self.statuses@.len()),
    {
        let mut n: usize = 0;
        let mut i: usize = 0;
        while i < self.statuses.len()
            invariant
                i <= self.statuses.len(),
                n <= i,
                n == sound_files(self.statuses@, i as nat),
            decreases self.statuses.len() - i,
        {
            if self.statuses[i].is_ok() {
                n = n + 1;
            }
            i = i + 1;
        }
        n
    }

    /// Number of files that failed; skipped files do not count.
    pub fn failure_count(&self) -> (r: usize)
        ensures
            r == failed_positions(self.statuses@, self.statuses@.len()).len(),
    {
        self.failures().len()
    }

    /// Positions of the files that failed.
    pub fn failures(&self) -> (r: Vec<usize>)
        ensures
            r@ == failed_positions(self.statuses@, self.statuses@.len()),
    {
        let mut out: Vec<usize> = Vec::new();
        let mut i: usize = 0;
        while i < self.statuses.len()
            invariant
                i <= self.statuses.len(),
                out@ == failed_positions(self.statuses@, i as nat),
            decreases self.statuses.len() - i,
        {
            if self.statuses[i].is_failure() {
                out.push(i);
            }
            i = i + 1;
        }
        out
    }
}

/// A configuration that split archives are kept for.
#[derive(Debug)]
pub struct CacheKey {
    pub lambda: String,
    pub n_modes: usize,
    pub prec: u32,
}

/// A configuration, as mathematics.
pub struct KeyView {
    pub lambda: Seq<char>,
    pub n_modes: nat,
    pub prec: nat,
}

impl View for CacheKey {
    type V = KeyView;

    open spec fn view(&self) -> KeyView {
        KeyView { lambda: self.lambda@, n_modes: self.n_modes as nat, prec: self.prec as nat }
    }
}

pub open spec fn keys(s: Seq<CacheKey>) -> Seq<KeyView> {
    Seq::new(s.len(), |i: int| s[i]@)
}

/// Whether one configuration comes before another: by lambda, then modes, then precision.
pub open spec fn key_before(a: KeyView, b: KeyView) -> bool {
    comes_before(a.lambda, b.lambda) || (a.lambda == b.lambda && (a.n_modes < b.n_modes || (
    a.n_modes == b.n_modes && a.prec < b.prec)))
}

pub open spec fn keys_rise(s: Seq<KeyView>) -> bool {
    forall|i: int, j: int|
        0 <= i < j < s.len() ==> key_before(#[trigger] s[i], #[trigger] s[j])
}

fn key_comes_before(a: &CacheKey, b: &CacheKey) -> (r: bool)
    ensures
        r == key_before(a@, b@),
{
    proof {
        crate::lexical::law_texts_are_ordered(a.lambda@, b.lambda@, a.lambda@);
    }
    match order_texts(a.lambda.as_str(), b.lambda.as_str()) {
        Order::Less => true,
        Order::Greater => false,
        Order::Equal => a.n_modes < b.n_modes || (a.n_modes == b.n_modes && a.prec < b.prec),
    }
}

proof fn lemma_keys_ordered(a: KeyView, b: KeyView, c: KeyView)
    ensures
        key_before(a, b) && key_before(b, c) ==> key_before(a, c),
        key_before(a, b) || key_before(b, a) || a == b,
{
    crate::lexical::law_texts_are_ordered(a.lambda, b.lambda, c.lambda);
    crate::lexical::law_texts_are_ordered(b.lambda, a.lambda, c.lambda);
}

/// Adds a configuration to rising ones, unless it is there.
fn insert_key(s: &mut Vec<CacheKey>, x: CacheKey)
    requires
        keys_rise(keys(old(s)@)),
    ensures
        keys_rise(keys(final(s)@)),
        forall|k: KeyView|
            keys(final(s)@).contains(k) <==> keys(old(s)@).contains(k) || k == x@,
{
    let ghost before = keys(s@);
    let mut at: usize = 0;
    while at < s.len() && key_comes_before(&s[at], &x)
        invariant
            at <= s.len(),
            keys(s@) == before,
            forall|k: int| 0 <= k < at ==> key_before(#[trigger] before[k], x@),
        decreases s.len() - at,
    {
        assert(before[at as int] == s@[at as int]@);
        at = at + 1;
    }
    if at < s.len() {
        assert(before[at as int] == s@[at as int]@);
        if !key_comes_before(&x, &s[at]) {
            proof {
                lemma_keys_ordered(x@, before[at as int], x@);
                assert(before[at as int] == x@);
                assert(before.contains(x@));
            }
            return;
        }
    }
    s.insert(at, x);
    proof {
        let after = keys(s@);
        assert(after =~= before.insert(at as int, x@));
        assert forall|i: int, j: int| 0 <= i < j < after.len() implies key_before(
            #[trigger] after[i],
            #[trigger] after[j],
        ) by {
            if j == at {
                assert(after[i] == before[i]);
            } else if i == at {
                assert(after[j] == before[j - 1]);
                if j - 1 > at {
                    lemma_keys_ordered(x@, before[at as int], before[j - 1]);
                }
            } else {
                let a = if i < at {
                    i
                } else {
                    i - 1
                };
                let b = if j < at {
                    j
                } else {
                    j - 1
                };
                assert(after[i] == before[a]);
                assert(after[j] == before[b]);
            }
        }
        assert forall|k: KeyView| after.contains(k) <==> before.contains(k) || k == x@ by {
            if before.contains(k) {
                let i = choose|i: int| 0 <= i < before.len() && before[i] == k;
                if i < at {
                    assert(after[i] == k);
                } else {
                    assert(after[i + 1] == k);
                }
            }
            if k == x@ {
                assert(after[at as int] == k);
            }
            if after.contains(k) {
                let i = choose|i: int| 0 <= i < after.len() && after[i] == k;
                if i < at {
                    assert(before[i] == k);
                } else if i > at {
                    assert(before[i - 1] == k);
                }
            }
        }
    }
}

/// What a directory check has to look at.
#[derive(Debug)]
pub struct DirectoryPlan {
    /// Positions of the files to read on their own.
    pub singles: Vec<usize>,
    /// Configurations whose parts are read as one archive, in rising order.
    pub sets: Vec<CacheKey>,
    /// Positions of the files whose names are not of the expected form.
    pub skipped: Vec<usize>,
}

/// What a file name says, given what its lambda is called; `None` where either does not read.
pub open spec fn known_name(name: Seq<char>, lambda: Option<Seq<char>>) -> Option<NameView> {
    match (name_reading(name), lambda) {
        (Some(v), Some(l)) => Some(NameView { lambda: l, ..v }),
        _ => None,
    }
}

/// Whether a file is looked at on its own.
pub open spec fn is_single(v: Option<NameView>) -> bool {
    v matches Some(x) && !(x.kind is Part)
}

/// The positions, among the first `n` names, of those that hold for a predicate.
pub open spec fn positions(
    s: Seq<Option<NameView>>,
    wanted: spec_fn(Option<NameView>) -> bool, n: nat,
) -> Seq<
    usize,
>
    decreases n,
{
    if n == 0 {
        Seq::<usize>::empty()
    } else {
        let before = positions(s, wanted, (n - 1) as nat);
        if wanted(s[n - 1]) {
            before.push((n - 1) as usize)
        } else {
            before
        }
    }
}

/// What the names of a directory say.
pub open spec fn known_names(names: Seq<String>, lambdas: Seq<Option<String>>) -> Seq<
    Option<NameView>,
> {
    Seq::new(
        names.len(),
        |i: int|
            known_name(
                names[i]@,
                match lambdas[i] {
                    None => None,
                    Some(l) => Some(l@),
                },
            ),
    )
}

/// The configuration of a name.
pub open spec fn key_of(v: NameView) -> KeyView {
    KeyView { lambda: v.lambda, n_modes: v.n_modes, prec: v.prec }
}

/// Whether the name at a position is that of a part of an archive of a configuration.
pub open spec fn part_at(s: Seq<Option<NameView>>, i: int, k: KeyView) -> bool {
    s[i] matches Some(v) && v.kind is Part && key_of(v) == k
}

/// Whether one of the first `n` names is that of a part of an archive of a configuration.
pub open spec fn has_part(s: Seq<Option<NameView>>, n: nat, k: KeyView) -> bool {
    exists|i: int| 0 <= i < n && #[trigger] part_at(s, i, k)
}

/// Whether configurations are those of the parts among the first `n` names.
pub open spec fn covers_parts(s: Seq<Option<NameView>>, k: Seq<KeyView>, n: nat) -> bool {
    forall|x: KeyView| #[trigger] k.contains(x) <==> has_part(s, n, x)
}

fn reading_of(name: &String, lambda: &Option<String>) -> (r: Option<CacheFileName>)
    ensures
        match r {
            None => known_name(
                name@,
                match *lambda {
                    None => None,
                    Some(l) => Some(l@),
                },
            ) is None,
            Some(v) => known_name(
                name@,
                match *lambda {
                    None => None,
                    Some(l) => Some(l@),
                },
            ) == Some(v@),
        },
{
    match parse_filename(name.as_str()) {
        None => None,
        Some(v) => match lambda {
            None => None,
            Some(l) => Some(
                CacheFileName {
                    lambda: l.clone(),
                    n_modes: v.n_modes,
                    prec: v.prec,
                    kind: v.kind,
                },
            ),
        },
    }
}

/// Sorts the names of a directory into files to read on their own, sets of parts to read as one
/// archive, and names to skip.
///
/// `lambdas` holds, for every name, what the lambda in it is called, where it reads.
pub fn plan_directory(names: &Vec<String>, lambdas: &Vec<Option<String>>) -> (r: DirectoryPlan)
    requires
        names.len() == lambdas.len(),
    ensures
        ({
            let s = known_names(names@, lambdas@);
            &&& r.singles@ == positions(s, |v: Option<NameView>| is_single(v), s.len())
            &&& r.skipped@ == positions(s, |v: Option<NameView>| v is None, s.len())
            &&& keys_rise(keys(r.sets@))
            &&& covers_parts(s, keys(r.sets@), s.len())
        }),
{
    let ghost s = known_names(names@, lambdas@);
    let mut singles: Vec<usize> = Vec::new();
    let mut sets: Vec<CacheKey> = Vec::new();
    let mut skipped: Vec<usize> = Vec::new();
    let mut i: usize = 0;
    while i < names.len()
        invariant
            i <= names.len(),
            names.len() == lambdas.len(),
            s == known_names(names@, lambdas@),
            singles@ == positions(s, |v: Option<NameView>| is_single(v), i as nat),
            skipped@ == positions(s, |v: Option<NameView>| v is None, i as nat),
            keys_rise(keys(sets@)),
            covers_parts(s, keys(sets@), i as nat),
        decreases names.len() - i,
    {
        let ghost before = keys(sets@);
        match reading_of(&names[i], &lambdas[i]) {
            None => {
                assert(s[i as int] is None);
                skipped.push(i);
                proof {
                    lemma_cover_grows(s, before, i as nat);
                }
            },
            Some(v) => {
                assert(s[i as int] == Some(v@));
                match v.kind {
                    FileKind::Part => {
                        let key: CacheKey = CacheKey {
                            lambda: v.lambda,
                            n_modes: v.n_modes,
                            prec: v.prec,
                        };
                        let ghost kv = key@;
                        insert_key(&mut sets, key);
                        proof {
                            assert(kv == key_of(s[i as int]->0));
                            lemma_part_joins(s, before, keys(sets@), i as nat);
                        }
                    },
                    _ => {
                        singles.push(i);
                        proof {
                            lemma_cover_grows(s, before, i as nat);
                        }
                    },
                }
            },
        }
        i = i + 1;
    }
    DirectoryPlan { singles, sets, skipped }
}

proof fn lemma_cover_grows(s: Seq<Option<NameView>>, k: Seq<KeyView>, n: nat)
    requires
        covers_parts(s, k, n),
        n < s.len(),
        !(s[n as int] is Some && s[n as int]->0.kind is Part),
    ensures
        covers_parts(s, k, n + 1),
{
    assert forall|x: KeyView| #[trigger] k.contains(x) <==> has_part(s, n + 1, x) by {
        if has_part(s, n, x) {
            let i = choose|i: int| 0 <= i < n && #[trigger] part_at(s, i, x);
            assert(part_at(s, i, x));
        }
        if has_part(s, n + 1, x) {
            let i = choose|i: int| 0 <= i < n + 1 && #[trigger] part_at(s, i, x);
            assert(i < n);
        }
    }
}

proof fn lemma_part_joins(
    s: Seq<Option<NameView>>,
    before: Seq<KeyView>,
    after: Seq<KeyView>,
    n: nat,
)
    requires
        covers_parts(s, before, n),
        n < s.len(),
        s[n as int] is Some,
        s[n as int]->0.kind is Part,
        forall|x: KeyView|
            after.contains(x) <==> before.contains(x) || x == key_of(s[n as int]->0),
    ensures
        covers_parts(s, after, n + 1),
{
    assert forall|x: KeyView| #[trigger] after.contains(x) <==> has_part(s, n + 1, x) by {
        if before.contains(x) {
            let i = choose|i: int| 0 <= i < n && #[trigger] part_at(s, i, x);
            assert(part_at(s, i, x));
        }
        if x == key_of(s[n as int]->0) {
            assert(part_at(s, n as int, x));
        }
        if has_part(s, n + 1, x) {
            let i = choose|i: int| 0 <= i < n + 1 && #[trigger] part_at(s, i, x);
            if i < n {
                assert(has_part(s, n, x));
                assert(before.contains(x));
            }
        }
    }
}

/// The status of a file whose name is not of the expected form.
pub fn skipped_status(path: String, name: &str) -> (r: TauCacheFileStatus)
    ensures
        r is Skipped,
        r->Skipped_path@ == path@,
        r->Skipped_reason@ == "filename '"@ + name@
            + "' not in expected lambda_sq{L}_nmodes{N}_prec{P}.json[.zip[.partXX]] form"@,
{
    let mut reason: String = "filename '".to_owned();
    reason.append(name);
    reason.append("' not in expected lambda_sq{L}_nmodes{N}_prec{P}.json[.zip[.partXX]] form");
    TauCacheFileStatus::Skipped { path, reason }
}

/// What is said of a file, or of a set of parts, that could not be read.
pub open spec fn load_failure(parts: Option<nat>) -> Seq<char> {
    match parts {
        None => "parse / decompress failed"@,
        Some(n) => "split archive ("@ + number_text(n)
            + " parts) failed to assemble / decompress"@,
    }
}

/// The status of a file, or of a set of parts, from the form that was read, if any.
pub fn file_status(
    path: String,
    lambda_sq: String,
    n_modes: usize,
    prec: u32,
    parts: Option<usize>,
    tau: Option<&Vec<HpFloat>>,
) -> (r: TauCacheFileStatus)
    requires
        prec >= 1,
        2 * n_modes + 1 <= usize::MAX,
    ensures
        match tau {
            None => {
                &&& r is LoadFailed
                &&& r->LoadFailed_path@ == path@
                &&& r->LoadFailed_lambda_sq@ == lambda_sq@
                &&& r->LoadFailed_n_modes == n_modes
                &&& r->LoadFailed_prec == prec
                &&& r->LoadFailed_reason@ == load_failure(
                    match parts {
                        None => None,
                        Some(n) => Some(n as nat),
                    },
                )
            },
            Some(m) => match structural_fault(vals(m@), n_modes as int, prec as nat) {
                None => {
                    &&& r is Sound
                    &&& r->Sound_path@ == path@
                    &&& r->Sound_lambda_sq@ == lambda_sq@
                    &&& r->Sound_n_modes == n_modes
                    &&& r->Sound_prec == prec
                },
                Some(f) => {
                    &&& r is StructurallyInvalid
                    &&& r->StructurallyInvalid_path@ == path@
                    &&& r->StructurallyInvalid_lambda_sq@ == lambda_sq@
                    &&& r->StructurallyInvalid_n_modes == n_modes
                    &&& r->StructurallyInvalid_prec == prec
                    &&& r->fault@ == f
                },
            },
        },
{
    match tau {
        None => {
            let reason: String = match parts {
                None => "parse / decompress failed".to_owned(),
                Some(n) => {
                    let mut t: String = "split archive (".to_owned();
                    push_number(&mut t, n as u64);
                    t.append(" parts) failed to assemble / decompress");
                    t
                },
            };
            TauCacheFileStatus::LoadFailed { path, lambda_sq, n_modes, prec, reason }
        },
        Some(m) => match structural_check(m, n_modes, prec) {
            None => TauCacheFileStatus::Sound { path, lambda_sq, n_modes, prec },
            Some(fault) => TauCacheFileStatus::StructurallyInvalid {
                path,
                lambda_sq,
                n_modes,
                prec,
                fault,
            },
        },
    }
}

} // verus!
