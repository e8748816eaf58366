//! Validation of requests.

use crate::api::error::ApiError;
use vstd::prelude::*;
use vstd::string::*;

verus! {

/// A field whose value is not accepted, and why.
pub struct FieldError {
    pub field: &'static str,
    pub message: String,
}

/// A field with what is wrong about it.
pub type Complaint = (Seq<char>, Seq<char>);

/// Complaints as they read.
pub open spec fn complaints(errors: Seq<FieldError>) -> Seq<Complaint> {
    errors.map_values(|e: FieldError| (e.field@, e.message@))
}

/// One complaint, unless the field is accepted.
pub open spec fn unless(accepted: bool, field: Seq<char>, message: Seq<char>) -> Seq<Complaint> {
    if accepted {
        Seq::empty()
    } else {
        seq![(field, message)]
    }
}

/// Adds a complaint, unless the field is accepted.
pub fn expect(errors: &mut Vec<FieldError>, accepted: bool, field: &'static str, message: &str)
    ensures
        complaints(final(errors)@) == complaints(old(errors)@) + unless(
            accepted,
            field@,
            message@,
        ),
{
    if !accepted {
        errors.push(FieldError { field, message: message.to_owned() });
    }
    proof {
        assert(complaints(errors@) =~= complaints(old(errors)@) + unless(
            accepted,
            field@,
            message@,
        ));
    }
}

/// `Ok` where there is no complaint.
pub fn verdict(errors: Vec<FieldError>) -> (r: Result<(), Vec<FieldError>>)
    ensures
        match r {
            Ok(()) => complaints(errors@).len() == 0,
            Err(e) => e == errors && complaints(errors@).len() > 0,
        },
{
    if errors.is_empty() {
        Ok(())
    } else {
        Err(errors)
    }
}

/// The result of a validation: `Ok` without complaints, or the complaints.
pub open spec fn is_verdict(r: Result<(), Vec<FieldError>>, expected: Seq<Complaint>) -> bool {
    match r {
        Ok(()) => expected.len() == 0,
        Err(errors) => expected.len() > 0 && complaints(errors@) == expected,
    }
}

/// Complaints as text: each on a line, the field before its message.
pub open spec fn complaint_text(list: Seq<Complaint>) -> Seq<char>
    decreases list.len(),
{
    if list.len() == 0 {
        Seq::empty()
    } else {
        let (field, message) = list.last();
        let line = field + ": "@ + message;
        if list.len() == 1 {
            line
        } else {
            complaint_text(list.drop_last()) + "\n"@ + line
        }
    }
}

/// The error with which an invalid request is answered.
pub fn validation_error(errors: &Vec<FieldError>) -> (r: ApiError)
    ensures
        r matches ApiError::BadRequest(m) && m@ == complaint_text(complaints(errors@)),
{
    let mut m: String = String::new();
    let mut i: usize = 0;
    let ghost all = complaints(errors@);
    while i < errors.len()
        invariant
            i <= errors@.len(),
            all == complaints(errors@),
            m@ == complaint_text(all.take(i as int)),
        decreases errors@.len() - i,
    {
        proof {
            assert(all.take(i + 1).drop_last() =~= all.take(i as int));
            assert(all.take(i + 1).last() == all[i as int]);
        }
        if i > 0 {
            m.append("\n");
        }
        let ghost before = m@;
        m.append(errors[i].field);
        m.append(": ");
        m.append(errors[i].message.as_str());
        proof {
            assert(m@ =~= before + (errors@[i as int].field@ + ": "@ + errors@[i as int].message@));
            assert(m@ =~= complaint_text(all.take(i + 1)));
        }
        i += 1;
    }
    proof {
        assert(all.take(i as int) =~= all);
    }
    ApiError::BadRequest(m)
}

/// A request is refused exactly where something is wrong with it, and then everything that is wrong
/// is said.
pub proof fn law_refusal_says_what_is_wrong(
    r: Result<(), Vec<FieldError>>,
    expected: Seq<Complaint>,
)
    requires
        is_verdict(r, expected),
    ensures
        r is Ok <==> expected.len() == 0,
        r matches Err(errors) ==> errors@.len() == expected.len() && forall|i: int|
            0 <= i < errors@.len() ==> (#[trigger] errors@[i]).field@ == expected[i].0
                && errors@[i].message@ == expected[i].1,
{
    match r {
        Ok(()) => {},
        Err(errors) => {
            assert(complaints(errors@).len() == errors@.len());
            assert forall|i: int| 0 <= i < errors@.len() implies (#[trigger] errors@[i]).field@
                == expected[i].0 && errors@[i].message@ == expected[i].1 by {
                assert(complaints(errors@)[i] == expected[i]);
            }
        },
    }
}

/// What is wrong is told line by line: the field, a colon, a space, and what is wrong about it.
pub proof fn law_complaints_stand_on_lines(list: Seq<Complaint>, more: Complaint)
    ensures
        complaint_text(seq![more]) == more.0 + ": "@ + more.1,
        list.len() > 0 ==> complaint_text(list.push(more)) == complaint_text(list) + seq!['\n'] + (
        more.0 + ": "@ + more.1),
{
    reveal_strlit("\n");
    assert("\n"@ =~= seq!['\n']);
    assert(list.push(more).drop_last() =~= list);
}

} // verus!
