//! Parse context used and build up by parser: the variables declared so
//! far, each bound to a name, without shadowing.
use vstd::prelude::*;

use vstd::string::StringSliceAdditionalSpecFns;

use crate::error::{parse_error_view, GlobalError, GlobalErrorView, ParseErrorKind, ParseErrorView};
use crate::lexer::token::Span;

verus! {

/// Kind of Identifier
///
/// For now only Variable but extensible for function etc
#[derive(Debug, Clone, Copy, PartialEq, Eq, Structural)]
pub enum IdentKind {
    Variable,
}

pub type IdentId = usize;

/// Identifier bound to name
#[derive(Debug, Clone, Copy, PartialEq, Eq, Structural)]
pub struct Ident {
    pub ident_number: IdentId,
    pub kind: IdentKind,
    pub span: Span,
}

impl Ident {
    /// The text of the input the identifier was declared with.
    pub fn lexeme<'a>(&self, input_str: &'a str) -> (r: &'a str)
        requires
            crate::text::sliceable(input_str, self.span.start as int, self.span.end as int),
        ensures
            r@ == crate::text::str_slice(input_str, self.span.start as int, self.span.end as int),
    {
        let r = crate::text::slice_str(input_str, self.span.start, self.span.end);
        proof {
            vstd::utf8::encode_utf8_decode_utf8(r@);
        }
        r
    }
}

/// The declared variables: each name (the bytes of its lexeme) with the
/// identifier it is bound to, in order of declaration.
pub type Bindings = Seq<(Seq<u8>, Ident)>;

/// The identifier bound to `name`, if any.
pub open spec fn lookup(ctx: Bindings, name: Seq<u8>) -> Option<Ident>
    decreases ctx.len(),
{
    if ctx.len() == 0 {
        None
    } else if ctx.last().0 == name {
        Some(ctx.last().1)
    } else {
        lookup(ctx.drop_last(), name)
    }
}

/// Bindings as the context builds them: the i-th declared variable has
/// number i, and no name is bound twice.
pub open spec fn bindings_wf(ctx: Bindings) -> bool {
    &&& forall|i: int| 0 <= i < ctx.len() ==> (#[trigger] ctx[i]).1.ident_number == i
    &&& forall|i: int, j: int| 0 <= i < j < ctx.len() ==> (#[trigger] ctx[i]).0 != (#[trigger] ctx[j]).0
}

/// The outcome of declaring `name`: the new identifier and bindings, or
/// the error that the name is already in use.
pub open spec fn declare(ctx: Bindings, name: Seq<u8>, name_chars: Seq<char>, kind: IdentKind, span: Span) -> Result<(Ident, Bindings), GlobalErrorView> {
    match lookup(ctx, name) {
        Some(old) => Err(parse_error_view(ParseErrorView::IdentifierAlreadyUsed(name_chars, old.span), old.span)),
        None => {
            let ident = Ident { ident_number: ctx.len() as usize, kind, span };
            Ok((ident, ctx.push((name, ident))))
        },
    }
}

/// The outcome of looking up `name`.
pub open spec fn resolve(ctx: Bindings, name: Seq<u8>, name_chars: Seq<char>, span: Span) -> Result<Ident, GlobalErrorView> {
    match lookup(ctx, name) {
        Some(ident) => Ok(ident),
        None => Err(parse_error_view(ParseErrorView::IdentifierNotKnown(name_chars), span)),
    }
}

/// Whether two byte slices hold the same bytes.
fn bytes_eq(a: &[u8], b: &[u8]) -> (r: bool)
    ensures
        r == (a@ == b@),
{
    if a.len() != b.len() {
        return false;
    }
    let mut i: usize = 0;
    while i < a.len()
        invariant
            a@.len() == b@.len(),
            i <= a@.len(),
            forall|k: int| 0 <= k < i ==> a@[k] == b@[k],
        decreases a@.len() - i,
    {
        if a[i] != b[i] {
            return false;
        }
        i = i + 1;
    }
    proof {
        assert(a@ =~= b@);
    }
    true
}

/// Parse context used and build up by parser
#[derive(Debug)]
pub struct ParseContext {
    next_ident_number: usize,
    ident_mapping: Vec<(Vec<u8>, Ident)>,
}

impl ParseContext {
    /// The bindings so far.
    pub closed spec fn bindings(&self) -> Bindings {
        self.ident_mapping@.map_values(|e: (Vec<u8>, Ident)| (e.0@, e.1))
    }

    pub closed spec fn wf(&self) -> bool {
        &&& self.next_ident_number == self.bindings().len()
        &&& bindings_wf(self.bindings())
    }

    pub fn new() -> (r: Self)
        ensures
            r.wf(),
            r.bindings() == Seq::<(Seq<u8>, Ident)>::empty(),
    {
        let r = ParseContext { next_ident_number: 0, ident_mapping: Vec::new() };
        proof {
            assert(r.bindings() =~= Seq::<(Seq<u8>, Ident)>::empty());
        }
        r
    }

    /// The binding of `name`, by scanning the bindings from the latest.
    fn find(&self, name: &[u8]) -> (r: Option<Ident>)
        ensures
            r == lookup(self.bindings(), name@),
    {
        let mut j = self.ident_mapping.len();
        proof {
            assert(self.bindings().take(j as int) =~= self.bindings());
        }
        while j > 0
            invariant
                j <= self.ident_mapping@.len(),
                lookup(self.bindings(), name@) == lookup(self.bindings().take(j as int), name@),
            decreases j,
        {
            let ghost sub = self.bindings().take(j as int);
            proof {
                assert(sub.last() == (self.ident_mapping@[j - 1].0@, self.ident_mapping@[j - 1].1));
                assert(sub.drop_last() =~= self.bindings().take(j - 1));
            }
            let entry = &self.ident_mapping[j - 1];
            if bytes_eq(entry.0.as_slice(), name) {
                return Some(entry.1);
            }
            j = j - 1;
        }
        None
    }

    /// classify identification string gives an error when no identifier
    /// is bound to it
    pub fn classify(&self, ident_str: &str, associated_span: Span) -> (r: Result<Ident, GlobalError>)
        ensures
            match resolve(self.bindings(), ident_str.spec_bytes(), ident_str@, associated_span) {
                Ok(ident) => r == Ok::<Ident, GlobalError>(ident),
                Err(e) => r is Err && r->Err_0@ == e,
            },
    {
        match self.find(ident_str.as_bytes()) {
            Some(ident) => Ok(ident),
            None => Err(GlobalError::parse(ParseErrorKind::IdentifierNotKnown(ident_str.to_owned()), associated_span)),
        }
    }

    /// get the next identification number
    /// - just adding +1 to the last identification number
    fn get_next_ident_number(&mut self) -> (r: usize)
        requires
            old(self).next_ident_number < usize::MAX,
        ensures
            r == old(self).next_ident_number,
            final(self).next_ident_number == old(self).next_ident_number + 1,
            final(self).ident_mapping == old(self).ident_mapping,
    {
        let num = self.next_ident_number;
        self.next_ident_number = self.next_ident_number + 1;
        num
    }

    /// inserts new identification in parse context
    pub fn new_ident(&mut self, ident_name: &str, ident_kind: IdentKind, ident_span: Span) -> (r: Result<Ident, GlobalError>)
        requires
            old(self).wf(),
            old(self).bindings().len() < usize::MAX,
        ensures
            final(self).wf(),
            match declare(old(self).bindings(), ident_name.spec_bytes(), ident_name@, ident_kind, ident_span) {
                Ok((ident, ctx)) => r == Ok::<Ident, GlobalError>(ident) && final(self).bindings() == ctx,
                Err(e) => r is Err && r->Err_0@ == e && final(self).bindings() == old(self).bindings(),
            },
    {
        // early return if identifier already defined
        match self.find(ident_name.as_bytes()) {
            Some(ident) => {
                return Err(GlobalError::parse(ParseErrorKind::IdentifierAlreadyUsed(ident_name.to_owned(), ident.span), ident.span));
            },
            None => {},
        }
        let ghost b0 = self.bindings();
        let next_ident_number = self.get_next_ident_number();
        let ident = Ident { ident_number: next_ident_number, kind: ident_kind, span: ident_span };
        let name = ident_name.as_bytes_vec();
        self.ident_mapping.push((name, ident));
        proof {
            let b = self.bindings();
            assert(b =~= b0.push((ident_name.spec_bytes(), ident)));
            lemma_lookup_none(b0, ident_name.spec_bytes());
        }
        Ok(ident)
    }
}

/// Declaring a name and then looking it up gives the identifier the
/// declaration made; declaring it again is refused as already used; every
/// other name resolves as before; and the bindings stay as the context
/// builds them, the new identifier numbered after those before it.
pub proof fn declare_then_resolve(
    ctx: Bindings,
    name: Seq<u8>,
    name_chars: Seq<char>,
    kind: IdentKind,
    span: Span,
    other: Seq<u8>,
    other_chars: Seq<char>,
    use_span: Span,
)
    requires
        bindings_wf(ctx),
        ctx.len() < usize::MAX,
        declare(ctx, name, name_chars, kind, span) is Ok,
    ensures
        ({
            let (ident, ctx2) = declare(ctx, name, name_chars, kind, span)->Ok_0;
            &&& ident.ident_number == ctx.len()
            &&& bindings_wf(ctx2)
            &&& resolve(ctx2, name, other_chars, use_span) == Ok::<Ident, GlobalErrorView>(ident)
            &&& declare(ctx2, name, name_chars, kind, span) is Err
            &&& other != name ==> resolve(ctx2, other, other_chars, use_span) == resolve(ctx, other, other_chars, use_span)
        }),
{
    let (ident, ctx2) = declare(ctx, name, name_chars, kind, span)->Ok_0;
    lemma_lookup_none(ctx, name);
    assert(ctx2.drop_last() =~= ctx);
    assert forall|i: int| 0 <= i < ctx2.len() implies (#[trigger] ctx2[i]).1.ident_number == i by {
        if i < ctx.len() {
            assert(ctx2[i] == ctx[i]);
        }
    }
    assert forall|i: int, j: int| 0 <= i < j < ctx2.len() implies (#[trigger] ctx2[i]).0 != (#[trigger] ctx2[j]).0 by {
        assert(ctx2[i] == ctx[i]);
        if j < ctx.len() {
            assert(ctx2[j] == ctx[j]);
        }
    }
}

/// A name that `lookup` does not find is bound nowhere.
proof fn lemma_lookup_none(ctx: Bindings, name: Seq<u8>)
    requires
        lookup(ctx, name) is None,
    ensures
        forall|i: int| 0 <= i < ctx.len() ==> (#[trigger] ctx[i]).0 != name,
    decreases ctx.len(),
{
    if ctx.len() > 0 {
        lemma_lookup_none(ctx.drop_last(), name);
        assert forall|i: int| 0 <= i < ctx.len() implies (#[trigger] ctx[i]).0 != name by {
            if i < ctx.len() - 1 {
                assert(ctx[i] == ctx.drop_last()[i]);
            }
        }
    }
}

} // verus!
