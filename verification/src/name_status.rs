//! What `git diff --name-status -z` prints for a list of changes, and the proof that
//! `parse_names` reads such output back as exactly that list.
use vstd::prelude::*;
use vstd::utf8::{
    encode_utf8, encode_scalar, encode_utf8_decode_utf8, encode_utf8_valid_utf8,
    has_width_1_encoding, has_width_2_encoding, has_width_3_encoding, leading_byte_width_1,
    leading_byte_width_2, leading_byte_width_3, leading_byte_width_4, last_continuation_byte,
    second_last_continuation_byte, third_last_continuation_byte,
};

use crate::delta::{ChangedFileView, decode_lossy, parse_fields, parse_names_spec, prepend};
use crate::strs::{split_on, lemma_split_step, lemma_split_last, lemma_split_concat};

verus! {

/// The status letters that a change can carry.
pub open spec fn is_status_letter(c: char) -> bool {
    c == 'A' || c == 'M' || c == 'D' || c == 'T' || c == 'R' || c == 'C' || c == 'U'
}

pub open spec fn no_nul_char(s: Seq<char>) -> bool {
    forall|i: int| 0 <= i < s.len() ==> s[i] != '\0'
}

pub open spec fn no_nul_byte(s: Seq<u8>) -> bool {
    forall|i: int| 0 <= i < s.len() ==> s[i] != 0u8
}

/// A change that git can report: a known status, a source path exactly for renames and
/// copies, and paths without NUL.
pub open spec fn reportable(f: ChangedFileView) -> bool {
    &&& is_status_letter(f.status)
    &&& (f.previous is Some <==> (f.status == 'R' || f.status == 'C'))
    &&& no_nul_char(f.path)
    &&& (f.previous matches Some(p) ==> no_nul_char(p))
}

/// The fields of one record: the status letter followed by `score` (such as the similarity
/// of a rename), then the source path of a rename or copy, then the path.
pub open spec fn record_fields(f: ChangedFileView, score: Seq<u8>) -> Seq<Seq<u8>> {
    let status = seq![f.status as u8] + score;
    match f.previous {
        Some(p) => seq![status, encode_utf8(p), encode_utf8(f.path)],
        None => seq![status, encode_utf8(f.path)],
    }
}

pub open spec fn output_fields(files: Seq<ChangedFileView>, scores: Seq<Seq<u8>>) -> Seq<Seq<u8>>
    decreases files.len(),
{
    if files.len() == 0 || scores.len() == 0 {
        seq![]
    } else {
        record_fields(files[0], scores[0]) + output_fields(
            files.subrange(1, files.len() as int),
            scores.subrange(1, scores.len() as int),
        )
    }
}

/// Each field followed by a NUL byte.
pub open spec fn terminated(fields: Seq<Seq<u8>>) -> Seq<u8>
    decreases fields.len(),
{
    if fields.len() == 0 {
        seq![]
    } else {
        fields[0] + seq![0u8] + terminated(fields.subrange(1, fields.len() as int))
    }
}

/// The bytes `git diff --name-status -z` prints for `files`, with `scores[i]` after the
/// status letter of `files[i]`.
pub open spec fn name_status_output(files: Seq<ChangedFileView>, scores: Seq<Seq<u8>>) -> Seq<u8> {
    terminated(output_fields(files, scores))
}

proof fn lemma_scalar_no_nul(c: u32)
    requires
        c != 0,
    ensures
        no_nul_byte(encode_scalar(c)),
{
    if has_width_1_encoding(c) {
        assert(leading_byte_width_1(c) != 0u8) by (bit_vector)
            requires
                c != 0,
                c <= 0x7F,
        ;
    } else {
        let l = last_continuation_byte(c);
        assert(l != 0u8) by (bit_vector)
            requires
                l == 0x80 | (c & 0x3F) as u8,
        ;
        let s = second_last_continuation_byte(c);
        assert(s != 0u8) by (bit_vector)
            requires
                s == 0x80 | ((c >> 6) & 0x3F) as u8,
        ;
        let t = third_last_continuation_byte(c);
        assert(t != 0u8) by (bit_vector)
            requires
                t == 0x80 | ((c >> 12) & 0x3F) as u8,
        ;
        if has_width_2_encoding(c) {
            let b = leading_byte_width_2(c);
            assert(b != 0u8) by (bit_vector)
                requires
                    b == 0xC0 | ((c >> 6) & 0x1F) as u8,
            ;
        } else if has_width_3_encoding(c) {
            let b = leading_byte_width_3(c);
            assert(b != 0u8) by (bit_vector)
                requires
                    b == 0xE0 | ((c >> 12) & 0x0F) as u8,
            ;
        } else {
            let b = leading_byte_width_4(c);
            assert(b != 0u8) by (bit_vector)
                requires
                    b == 0xF0 | ((c >> 18) & 0x7) as u8,
            ;
        }
    }
}

proof fn lemma_encode_no_nul(s: Seq<char>)
    requires
        no_nul_char(s),
    ensures
        no_nul_byte(encode_utf8(s)),
    decreases s.len(),
{
    if s.len() > 0 {
        let c = s[0] as u32;
        assert(c != 0) by {
            assert(s[0] != '\0');
            vstd::utf8::char_u32_cast(s[0], c);
        }
        lemma_scalar_no_nul(c);
        lemma_encode_no_nul(s.drop_first());
        let a = encode_scalar(c);
        let b = encode_utf8(s.drop_first());
        assert(encode_utf8(s) == a + b);
        assert forall|i: int| 0 <= i < (a + b).len() implies (a + b)[i] != 0u8 by {
            if i < a.len() {
                assert((a + b)[i] == a[i]);
            } else {
                assert((a + b)[i] == b[i - a.len()]);
            }
        }
    }
}

proof fn lemma_decode_encoded(s: Seq<char>)
    ensures
        decode_lossy(encode_utf8(s)) == s,
{
    encode_utf8_valid_utf8(s);
    encode_utf8_decode_utf8(s);
}

proof fn lemma_output_fields(files: Seq<ChangedFileView>, scores: Seq<Seq<u8>>)
    requires
        files.len() == scores.len(),
        forall|i: int| 0 <= i < files.len() ==> reportable(#[trigger] files[i]),
        forall|i: int| 0 <= i < scores.len() ==> no_nul_byte(#[trigger] scores[i]),
    ensures
        forall|i: int|
            0 <= i < output_fields(files, scores).len() ==> no_nul_byte(
                #[trigger] output_fields(files, scores)[i],
            ),
        files.len() == 0 <==> output_fields(files, scores).len() == 0,
        parse_fields(output_fields(files, scores)) == Ok::<Seq<ChangedFileView>, Seq<char>>(files),
    decreases files.len(),
{
    if files.len() > 0 {
        let f = files[0];
        let rest = files.subrange(1, files.len() as int);
        let srest = scores.subrange(1, scores.len() as int);
        assert(reportable(f));
        assert(no_nul_byte(scores[0]));
        lemma_output_fields(rest, srest);
        let rec = record_fields(f, scores[0]);
        let tail = output_fields(rest, srest);
        let all = output_fields(files, scores);
        assert(all == rec + tail);
        let status = seq![f.status as u8] + scores[0];
        assert(status[0] == f.status as u8);
        assert(no_nul_byte(status)) by {
            assert forall|i: int| 0 <= i < status.len() implies status[i] != 0u8 by {
                if i > 0 {
                    assert(status[i] == scores[0][i - 1]);
                }
            }
        }
        lemma_encode_no_nul(f.path);
        lemma_decode_encoded(f.path);
        assert((f.status as u8) as char == f.status);
        assert(crate::delta::is_status_code(f.status as u8));
        assert(crate::delta::has_source(f.status as u8) <==> f.previous is Some);
        match f.previous {
            Some(p) => {
                lemma_encode_no_nul(p);
                lemma_decode_encoded(p);
                assert(all.subrange(3, all.len() as int) =~= tail);
                assert(all[0] == status);
                assert(all[1] == encode_utf8(p));
                assert(all[2] == encode_utf8(f.path));
                let g = ChangedFileView {
                    path: decode_lossy(all[2]),
                    previous: Some(decode_lossy(all[1])),
                    status: all[0][0] as char,
                };
                assert(g == f);
                assert(parse_fields(all) == prepend(g, parse_fields(all.subrange(3, all.len() as int))));
            },
            None => {
                assert(all.subrange(2, all.len() as int) =~= tail);
                assert(all[0] == status);
                assert(all[1] == encode_utf8(f.path));
                let g = ChangedFileView {
                    path: decode_lossy(all[1]),
                    previous: None,
                    status: all[0][0] as char,
                };
                assert(g == f);
                assert(parse_fields(all) == prepend(g, parse_fields(all.subrange(2, all.len() as int))));
            },
        }
        assert forall|i: int| 0 <= i < all.len() implies no_nul_byte(#[trigger] all[i]) by {
            if i >= rec.len() {
                assert(all[i] == tail[i - rec.len()]);
            }
        }
        assert(seq![f] + rest =~= files);
    } else {
        assert(output_fields(files, scores) =~= Seq::<Seq<u8>>::empty());
        assert(files =~= Seq::<ChangedFileView>::empty());
    }
}

proof fn lemma_terminated(fields: Seq<Seq<u8>>)
    requires
        fields.len() > 0,
        forall|i: int| 0 <= i < fields.len() ==> no_nul_byte(#[trigger] fields[i]),
    ensures
        terminated(fields).len() > 0,
        terminated(fields)[terminated(fields).len() - 1] == 0u8,
        split_on(terminated(fields).subrange(0, terminated(fields).len() - 1), 0u8) == fields,
    decreases fields.len(),
{
    let f0 = fields[0];
    let rest = fields.subrange(1, fields.len() as int);
    let t = terminated(fields);
    assert(no_nul_byte(f0));
    if rest.len() == 0 {
        assert(terminated(rest) =~= Seq::<u8>::empty());
        assert(t =~= f0 + seq![0u8]);
        assert(t.subrange(0, t.len() - 1) =~= f0);
        lemma_split_last(f0, 0u8);
        assert(fields =~= seq![f0]);
    } else {
        assert forall|i: int| 0 <= i < rest.len() implies no_nul_byte(#[trigger] rest[i]) by {
            assert(rest[i] == fields[i + 1]);
        }
        lemma_terminated(rest);
        let tr = terminated(rest);
        assert(t == f0 + seq![0u8] + tr);
        let body = t.subrange(0, t.len() - 1);
        let m = f0.len() as int;
        assert(body =~= f0 + seq![0u8] + tr.subrange(0, tr.len() - 1));
        assert forall|j: int| 0 <= j < m implies body[j] != 0u8 by {
            assert(body[j] == f0[j]);
        }
        assert(body[m] == 0u8);
        lemma_split_step(body, 0u8, m);
        assert(body.subrange(0, m) =~= f0);
        assert(body.subrange(m + 1, body.len() as int) =~= tr.subrange(0, tr.len() - 1));
        assert(t[t.len() - 1] == tr[tr.len() - 1]);
        assert(seq![f0] + rest =~= fields);
    }
}

/// `parse_names` reads back exactly the changes that `git diff --name-status -z` printed,
/// renames and copies with their source, whatever the paths hold (tabs, newlines, any
/// other character but NUL) and whatever follows the status letter.
pub proof fn law_name_status_round_trip(files: Seq<ChangedFileView>, scores: Seq<Seq<u8>>)
    requires
        files.len() == scores.len(),
        forall|i: int| 0 <= i < files.len() ==> reportable(#[trigger] files[i]),
        forall|i: int| 0 <= i < scores.len() ==> no_nul_byte(#[trigger] scores[i]),
    ensures
        parse_names_spec(name_status_output(files, scores)) == Ok::<Seq<ChangedFileView>, Seq<char>>(files),
{
    lemma_output_fields(files, scores);
    let fields = output_fields(files, scores);
    if fields.len() == 0 {
        assert(terminated(fields) =~= Seq::<u8>::empty());
    } else {
        lemma_terminated(fields);
    }
}

proof fn lemma_parse_fields_concat(f: Seq<Seq<u8>>, g: Seq<Seq<u8>>)
    requires
        parse_fields(f) is Ok,
        parse_fields(g) is Ok,
    ensures
        parse_fields(f + g) == Ok::<Seq<ChangedFileView>, Seq<char>>(
            parse_fields(f)->Ok_0 + parse_fields(g)->Ok_0,
        ),
    decreases f.len(),
{
    if f.len() == 0 {
        assert(f + g =~= g);
        assert(parse_fields(f)->Ok_0 + parse_fields(g)->Ok_0 =~= parse_fields(g)->Ok_0);
    } else {
        let fg = f + g;
        assert(fg[0] == f[0] && fg[1] == f[1]);
        let n: int = if crate::delta::has_source(f[0][0]) {
            3
        } else {
            2
        };
        if n == 3 {
            assert(fg[2] == f[2]);
        }
        let rest = f.subrange(n, f.len() as int);
        lemma_parse_fields_concat(rest, g);
        assert(fg.subrange(n, fg.len() as int) =~= rest + g);
        let x = parse_fields(f)->Ok_0;
        let xr = parse_fields(rest)->Ok_0;
        let y = parse_fields(g)->Ok_0;
        assert(x == seq![x[0]] + xr);
        assert(seq![x[0]] + (xr + y) =~= x + y);
    }
}

/// Records are read independently and in order: the changes of two outputs of
/// `git diff --name-status -z` joined together are the changes of the first followed by
/// those of the second.
pub proof fn law_parse_names_concat(a: Seq<u8>, b: Seq<u8>)
    requires
        parse_names_spec(a) is Ok,
        parse_names_spec(b) is Ok,
    ensures
        parse_names_spec(a + b) == Ok::<Seq<ChangedFileView>, Seq<char>>(
            parse_names_spec(a)->Ok_0 + parse_names_spec(b)->Ok_0,
        ),
{
    if a.len() == 0 {
        assert(a + b =~= b);
        assert(parse_names_spec(a)->Ok_0 + parse_names_spec(b)->Ok_0 =~= parse_names_spec(b)->Ok_0);
    } else if b.len() == 0 {
        assert(a + b =~= a);
        assert(parse_names_spec(a)->Ok_0 + parse_names_spec(b)->Ok_0 =~= parse_names_spec(a)->Ok_0);
    } else {
        let ab = a + b;
        let a0 = a.subrange(0, a.len() - 1);
        let b0 = b.subrange(0, b.len() - 1);
        assert(ab[ab.len() - 1] == b[b.len() - 1]);
        assert(a[a.len() - 1] == 0u8);
        assert(ab.subrange(0, ab.len() - 1) =~= a0 + seq![0u8] + b0);
        lemma_split_concat(a0, 0u8, b0);
        lemma_parse_fields_concat(split_on(a0, 0u8), split_on(b0, 0u8));
    }
}

} // verus!
