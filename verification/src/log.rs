//! The audit log and the message that reports new tokens.

use crate::bytes::push_bytes;
use crate::find::bar;
use crate::lines::{join, vec_views};
use vstd::prelude::*;

verus! {

/// The lines, each followed by a line feed.
pub open spec fn terminated(lines: Seq<Seq<u8>>) -> Seq<u8>
    decreases lines.len(),
{
    if lines.len() == 0 {
        Seq::empty()
    } else {
        terminated(lines.drop_last()) + lines.last() + seq![0x0au8]
    }
}

/// What has to be written at the end of a file whose last byte is `last`,
/// or which is empty, to append the lines: a line feed first where the file
/// does not end with one, then the lines, each followed by a line feed.
pub open spec fn appended(last: Option<u8>, lines: Seq<Seq<u8>>) -> Seq<u8> {
    match last {
        Some(b) => if b != 0x0a {
            seq![0x0au8] + terminated(lines)
        } else {
            terminated(lines)
        },
        None => terminated(lines),
    }
}

/// The last byte of a byte string, if it has one.
pub open spec fn last_byte(content: Seq<u8>) -> Option<u8> {
    if content.len() == 0 {
        None
    } else {
        Some(content.last())
    }
}

/// The bytes to write at the end of a file to append the lines to it.
/// `last` is the last byte that the file holds, `None` for an empty file.
pub fn append_bytes(last: Option<u8>, lines: &[Vec<u8>]) -> (r: Vec<u8>)
    ensures
        r@ == appended(last, vec_views(lines@)),
{
    let mut out: Vec<u8> = Vec::new();
    match last {
        Some(b) => {
            if b != 0x0a {
                out.push(0x0a);
            }
        },
        None => {},
    }
    let ghost head = out@;
    let ghost all = vec_views(lines@);
    let mut k: usize = 0;
    assert(out@ =~= head + terminated(all.take(0)));
    while k < lines.len()
        invariant
            k <= lines@.len(),
            all == vec_views(lines@),
            out@ == head + terminated(all.take(k as int)),
        decreases lines@.len() - k,
    {
        proof {
            assert(all.take(k as int + 1).drop_last() =~= all.take(k as int));
            assert(all.take(k as int + 1).last() == lines@[k as int]@);
        }
        let ghost before = out@;
        push_bytes(&mut out, lines[k].as_slice());
        out.push(0x0a);
        assert(out@ =~= head + terminated(all.take(k as int + 1)));
        k += 1;
    }
    assert(all.take(lines@.len() as int) =~= all);
    assert(head + terminated(all) =~= appended(last, all));
    out
}

/// Appends the lines to a file. Nothing that the file held is changed; a
/// last line that was left without a line feed gets one first.
pub fn append(file: &mut Vec<u8>, lines: &[Vec<u8>])
    ensures
        final(file)@ == old(file)@ + appended(last_byte(old(file)@), vec_views(lines@)),
{
    let n = file.len();
    let last = if n == 0 {
        None
    } else {
        Some(file[n - 1])
    };
    let more = append_bytes(last, lines);
    push_bytes(file, more.as_slice());
}

/// A line of the audit log: the scope, the new entry and the time.
pub open spec fn log_line(scope: Seq<u8>, entry: Seq<u8>, time: Seq<u8>) -> Seq<u8> {
    scope + bar() + entry + bar() + time
}

/// The lines of the audit log for the entries, one for each.
pub open spec fn log_lines(scope: Seq<u8>, entries: Seq<Seq<u8>>, time: Seq<u8>) -> Seq<Seq<u8>> {
    Seq::new(entries.len(), |i: int| log_line(scope, entries[i], time))
}

/// The lines to append to the audit log for the new entries of a scope.
pub fn audit_lines(scope: &[u8], entries: &[Vec<u8>], time: &[u8]) -> (r: Vec<Vec<u8>>)
    ensures
        vec_views(r@) == log_lines(scope@, vec_views(entries@), time@),
{
    let mut out: Vec<Vec<u8>> = Vec::new();
    let mut k: usize = 0;
    while k < entries.len()
        invariant
            k <= entries@.len(),
            out@.len() == k,
            forall|i: int|
                0 <= i < k ==> (#[trigger] out@[i])@ == log_line(scope@, entries@[i]@, time@),
        decreases entries@.len() - k,
    {
        let mut line: Vec<u8> = Vec::new();
        push_bytes(&mut line, scope);
        line.push(0x20);
        line.push(0x7c);
        line.push(0x20);
        push_bytes(&mut line, entries[k].as_slice());
        line.push(0x20);
        line.push(0x7c);
        line.push(0x20);
        push_bytes(&mut line, time);
        assert(line@ =~= log_line(scope@, entries@[k as int]@, time@));
        out.push(line);
        k += 1;
    }
    assert(vec_views(out@) =~= log_lines(scope@, vec_views(entries@), time@));
    out
}

/// The text that reports the new entries of a scope: a heading with the
/// name of the scope, then the entries, each on a line of its own.
pub open spec fn report(scope: Seq<u8>, entries: Seq<Seq<u8>>) -> Seq<u8> {
    seq![0x23u8, 0x23u8, 0x20u8] + scope + seq![0x0au8] + join(entries, 0x0a)
}

/// Puts the text together that reports the new entries of a scope.
pub fn message(scope: &[u8], entries: &Vec<Vec<u8>>) -> (r: Vec<u8>)
    ensures
        r@ == report(scope@, vec_views(entries@)),
{
    let mut out: Vec<u8> = Vec::new();
    out.push(0x23);
    out.push(0x23);
    out.push(0x20);
    push_bytes(&mut out, scope);
    out.push(0x0a);
    let mut body: Vec<u8> = Vec::new();
    crate::lines::force_write(&mut body, entries);
    push_bytes(&mut out, body.as_slice());
    assert(out@ =~= report(scope@, vec_views(entries@)));
    out
}

/// What the deliveries to the webhooks came to, each an answer or an error.
pub open spec fn answer_views(v: Seq<Result<Vec<u8>, Vec<u8>>>) -> Seq<Result<Seq<u8>, Seq<u8>>> {
    Seq::new(
        v.len(),
        |i: int|
            match v[i] {
                Ok(a) => Ok(a@),
                Err(e) => Err(e@),
            },
    )
}

/// The outcome of all deliveries together: the first error where one
/// failed, else the answers one after the other.
pub open spec fn gathered(answers: Seq<Result<Seq<u8>, Seq<u8>>>) -> Result<Seq<u8>, Seq<u8>>
    decreases answers.len(),
{
    if answers.len() == 0 {
        Ok(Seq::empty())
    } else {
        match gathered(answers.drop_last()) {
            Err(e) => Err(e),
            Ok(text) => match answers.last() {
                Ok(a) => Ok(text + a),
                Err(e) => Err(e),
            },
        }
    }
}

/// An error among the first deliveries is the outcome of all of them.
pub proof fn lemma_first_error(answers: Seq<Result<Seq<u8>, Seq<u8>>>, k: int)
    requires
        0 <= k <= answers.len(),
        gathered(answers.take(k)) is Err,
    ensures
        gathered(answers) == gathered(answers.take(k)),
    decreases answers.len() - k,
{
    if k < answers.len() {
        assert(answers.take(k + 1).drop_last() =~= answers.take(k));
        lemma_first_error(answers, k + 1);
    } else {
        assert(answers.take(k) =~= answers);
    }
}

/// Puts the outcomes of the deliveries together. Every delivery has been
/// tried by the time this is called; a failed one does not hide that the
/// others were made, but the first error is what is reported.
pub fn gather(answers: &Vec<Result<Vec<u8>, Vec<u8>>>) -> (r: Result<Vec<u8>, Vec<u8>>)
    ensures
        match r {
            Ok(text) => gathered(answer_views(answers@)) == Ok::<Seq<u8>, Seq<u8>>(text@),
            Err(e) => gathered(answer_views(answers@)) == Err::<Seq<u8>, Seq<u8>>(e@),
        },
{
    let ghost all = answer_views(answers@);
    let mut out: Vec<u8> = Vec::new();
    let mut k: usize = 0;
    while k < answers.len()
        invariant
            k <= answers@.len(),
            all == answer_views(answers@),
            gathered(all.take(k as int)) == Ok::<Seq<u8>, Seq<u8>>(out@),
        decreases answers@.len() - k,
    {
        proof {
            assert(all.take(k as int + 1).drop_last() =~= all.take(k as int));
            assert(all.take(k as int + 1).last() == all[k as int]);
        }
        match &answers[k] {
            Ok(a) => {
                push_bytes(&mut out, a.as_slice());
            },
            Err(e) => {
                let error = vstd::slice::slice_to_vec(e.as_slice());
                proof {
                    lemma_first_error(all, k as int + 1);
                }
                return Err(error);
            },
        }
        k += 1;
    }
    assert(all.take(answers@.len() as int) =~= all);
    Ok(out)
}

} // verus!
