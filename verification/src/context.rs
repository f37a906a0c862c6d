//! Principals, argument values and invocation contexts.

use vstd::prelude::*;
use vstd::string::StringSliceAdditionalSpecFns;

verus! {

/// The longest operation name that can be declared or invoked.
pub const MAX_OPERATION_NAME_LEN: usize = 32;

/// An identity that can grant, or be asked for, authorization.
#[derive(Clone, Copy, Debug, PartialEq, Eq, Hash, Structural)]
pub struct Principal {
    pub id: u64,
}

/// One argument of an invocation. Arguments are compared by value.
#[derive(Clone, Copy, Debug, PartialEq, Eq, Hash, Structural)]
pub enum Value {
    /// The identity of a principal.
    Address(Principal),
    /// A plain number.
    Number(i128),
}

/// The mathematical value of an [`InvocationContext`].
pub struct ContextView {
    pub target: Principal,
    pub operation: Seq<char>,
    pub args: Seq<Value>,
}

/// Whether `c` may occur in an operation name: a letter, a digit or `_`.
pub open spec fn is_name_char(c: char) -> bool {
    ||| 'a' <= c <= 'z'
    ||| 'A' <= c <= 'Z'
    ||| '0' <= c <= '9'
    ||| c == '_'
}

/// Whether `name` is an operation name: at least one and at most
/// [`MAX_OPERATION_NAME_LEN`] characters, each a letter, a digit or `_`.
/// The empty name is none.
pub open spec fn is_operation_name(name: Seq<char>) -> bool {
    &&& 1 <= name.len() <= MAX_OPERATION_NAME_LEN
    &&& forall|i: int| 0 <= i < name.len() ==> is_name_char(#[trigger] name[i])
}

impl ContextView {
    /// A context is well formed when it names an operation: a context
    /// without an operation name is empty, and one whose name is not an
    /// operation name is invalid.
    pub open spec fn well_formed(self) -> bool {
        is_operation_name(self.operation)
    }
}

/// The tuple that identifies one call: the unit that is called, the
/// operation, and the arguments in order.
#[derive(Debug)]
pub struct InvocationContext {
    pub target: Principal,
    pub operation: String,
    pub args: Vec<Value>,
}

impl View for InvocationContext {
    type V = ContextView;

    open spec fn view(&self) -> ContextView {
        ContextView { target: self.target, operation: self.operation@, args: self.args@ }
    }
}

/// Compares two argument lists by value and in order.
pub fn same_args(left: &Vec<Value>, right: &Vec<Value>) -> (same: bool)
    ensures
        same == (left@ == right@),
{
    if left.len() != right.len() {
        return false;
    }
    let mut i: usize = 0;
    while i < left.len()
        invariant
            left.len() == right.len(),
            i <= left.len(),
            forall|j: int| 0 <= j < i ==> left@[j] == right@[j],
        decreases left.len() - i,
    {
        if left[i] != right[i] {
            return false;
        }
        i += 1;
    }
    assert(left@ =~= right@);
    true
}

/// Copies an argument list.
pub fn copy_args(args: &Vec<Value>) -> (copy: Vec<Value>)
    ensures
        copy@ == args@,
{
    let mut copy: Vec<Value> = Vec::new();
    let mut i: usize = 0;
    while i < args.len()
        invariant
            i <= args.len(),
            copy@ == args@.subrange(0, i as int),
        decreases args.len() - i,
    {
        copy.push(args[i]);
        assert(copy@ =~= args@.subrange(0, i + 1));
        i += 1;
    }
    assert(copy@ =~= args@);
    copy
}

/// Whether `name` is an operation name.
pub fn valid_operation_name(name: &str) -> (valid: bool)
    ensures
        valid == is_operation_name(name@),
{
    if !name.is_ascii() {
        assert(!is_operation_name(name@)) by {
            if is_operation_name(name@) {
                assert forall|i: int| 0 <= i < name@.len() implies '\0' <= #[trigger] name@[i]
                    <= '\u{7f}' by {
                    assert(is_name_char(name@[i]));
                }
            }
        }
        return false;
    }
    let n: usize = name.as_bytes().len();
    assert(n == name@.len()) by {
        vstd::string::is_ascii_spec_bytes(name);
        assert(vstd::string::is_ascii(name));
        assert(name.spec_bytes().len() == Seq::new(name@.len(), |i| name@.index(i) as u8).len());
    }
    if n == 0 || n > MAX_OPERATION_NAME_LEN {
        return false;
    }
    let mut i: usize = 0;
    while i < n
        invariant
            name.is_ascii(),
            n == name@.len(),
            i <= n,
            forall|j: int| 0 <= j < i ==> is_name_char(#[trigger] name@[j]),
        decreases n - i,
    {
        let b: u8 = name.get_ascii(i);
        let lower = 'a' as u8 <= b && b <= 'z' as u8;
        let upper = 'A' as u8 <= b && b <= 'Z' as u8;
        let digit = '0' as u8 <= b && b <= '9' as u8;
        let ok = lower || upper || digit || b == '_' as u8;
        assert(ok == is_name_char(name@[i as int])) by {
            let c = name@[i as int];
            assert('\0' <= c <= '\u{7f}');
            assert(c as u8 == b);
        }
        if !ok {
            return false;
        }
        i += 1;
    }
    true
}

impl InvocationContext {
    /// The context of a call of `operation` on `target` with `args`.
    pub fn new(target: Principal, operation: &str, args: Vec<Value>) -> (context: Self)
        ensures
            context@ == (ContextView { target, operation: operation@, args: args@ }),
    {
        InvocationContext { target, operation: operation.to_owned(), args }
    }

    /// Whether this context can be declared: whether it is neither empty
    /// nor invalid.
    pub fn is_well_formed(&self) -> (valid: bool)
        ensures
            valid == self@.well_formed(),
    {
        valid_operation_name(self.operation.as_str())
    }

    /// Whether the two contexts name the same target, the same operation
    /// and the same arguments in the same order.
    pub fn same_as(&self, other: &InvocationContext) -> (same: bool)
        ensures
            same == (self@ == other@),
    {
        let same = self.target == other.target && self.operation == other.operation && same_args(
            &self.args,
            &other.args,
        );
        same
    }

    /// A copy of this context.
    pub fn duplicate(&self) -> (copy: InvocationContext)
        ensures
            copy@ == self@,
    {
        InvocationContext {
            target: self.target,
            operation: self.operation.clone(),
            args: copy_args(&self.args),
        }
    }
}

} // verus!
