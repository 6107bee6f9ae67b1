use vstd::prelude::*;
use vstd::utf8::encode_utf8;

verus! {

/// A transaction carrying an opaque text payload. Two transactions are equal
/// when their payloads are equal.
#[derive(Clone)]
pub struct SimpleTransaction {
    message: String,
}

impl View for SimpleTransaction {
    type V = Seq<char>;

    closed spec fn view(&self) -> Seq<char> {
        self.message@
    }
}

impl SimpleTransaction {
    /// The transaction with an empty payload.
    pub fn new() -> (r: Self)
        ensures
            r@ == Seq::<char>::empty(),
    {
        SimpleTransaction { message: String::new() }
    }

    /// The UTF-8 bytes of the payload.
    pub fn to_bytes(&self) -> (r: Vec<u8>)
        ensures
            r@ == encode_utf8(self@),
    {
        let bytes = self.message.as_str().as_bytes();
        let mut r: Vec<u8> = Vec::new();
        r.extend_from_slice(bytes);
        assert(r@ =~= encode_utf8(self@));
        r
    }

    /// The transaction whose payload is `text`.
    pub fn from_str(text: &str) -> (r: Self)
        ensures
            r@ == text@,
    {
        SimpleTransaction { message: text.to_owned() }
    }

    /// The payload.
    pub fn to_string(&self) -> (r: String)
        ensures
            r@ == self@,
    {
        self.message.clone()
    }

    /// A copy of this transaction.
    pub fn duplicate(&self) -> (r: Self)
        ensures
            r@ == self@,
    {
        SimpleTransaction { message: self.message.clone() }
    }
}

impl PartialEq for SimpleTransaction {
    fn eq(&self, other: &SimpleTransaction) -> (r: bool) {
        self.message == other.message
    }
}

impl vstd::std_specs::cmp::PartialEqSpecImpl for SimpleTransaction {
    open spec fn obeys_eq_spec() -> bool {
        true
    }

    open spec fn eq_spec(&self, other: &SimpleTransaction) -> bool {
        self@ == other@
    }
}

} // verus!
