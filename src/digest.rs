use vstd::prelude::*;

use crate::store::is_valid_hash;

verus! {

#[verifier::external_type_specification]
#[verifier::external_body]
pub struct ExMd5Context(md5::Context);

/// The bytes fed into an md5 context so far.
pub uninterp spec fn fed_of(c: md5::Context) -> Seq<u8>;

/// The md5 digest of `data` in its textual form, as the md5 crate writes it.
pub uninterp spec fn md5_hex(data: Seq<u8>) -> Seq<char>;

/// Relies on `md5::Context::new`: a context that has been fed nothing.
#[verifier::external_body]
fn context_new() -> (r: md5::Context)
    ensures
        fed_of(r) == Seq::<u8>::empty(),
{
    md5::Context::new()
}

/// Relies on `md5::Context::consume`: the data is appended to what the
/// context has been fed.
#[verifier::external_body]
fn context_consume(c: &mut md5::Context, data: &[u8])
    ensures
        fed_of(*final(c)) == fed_of(*old(c)) + data@,
{
    c.consume(data)
}

/// Relies on `md5::Context::compute` and the `Debug` form of its `Digest`,
/// which writes the 16 bytes of the digest as 32 lowercase hex digits.
#[verifier::external_body]
fn context_hex(c: md5::Context) -> (r: String)
    ensures
        r@ == md5_hex(fed_of(c)),
        is_valid_hash(r@),
{
    format!("{:?}", c.compute())
}

/// The digest of a file's content: none for an empty file, which is never
/// analysed, else the textual md5 digest of all its bytes.
pub open spec fn digest_of(data: Seq<u8>) -> Option<Seq<char>> {
    if data.len() == 0 {
        None
    } else {
        Some(md5_hex(data))
    }
}

/// A running digest over content that arrives in chunks, so that a file is
/// never held in memory whole.
pub struct Digester {
    ctx: md5::Context,
    any: bool,
}

impl Digester {
    /// The content fed so far.
    pub closed spec fn fed(&self) -> Seq<u8> {
        fed_of(self.ctx)
    }

    pub closed spec fn wf(&self) -> bool {
        self.any == (fed_of(self.ctx).len() > 0)
    }

    pub fn new() -> (r: Self)
        ensures
            r.wf(),
            r.fed() == Seq::<u8>::empty(),
    {
        Digester { ctx: context_new(), any: false }
    }

    /// Feeds the next chunk of content.
    pub fn consume(&mut self, chunk: &[u8])
        requires
            old(self).wf(),
        ensures
            final(self).wf(),
            final(self).fed() == old(self).fed() + chunk@,
    {
        context_consume(&mut self.ctx, chunk);
        if chunk.len() > 0 {
            self.any = true;
        }
    }

    /// The digest of everything fed: `None` when nothing was.
    pub fn finish(self) -> (r: Option<String>)
        requires
            self.wf(),
        ensures
            r matches Some(s) ==> digest_of(self.fed()) == Some(s@),
            r is None ==> digest_of(self.fed()) is None,
            r matches Some(s) ==> is_valid_hash(s@),
    {
        if self.any {
            Some(context_hex(self.ctx))
        } else {
            None
        }
    }
}

/// A digest depends on the content alone: content read in any chunking, or
/// read twice, gives the same digest, and empty content gives none.
pub proof fn lemma_digest_of_content(x: Digester, y: Digester)
    requires
        x.fed() == y.fed(),
    ensures
        digest_of(x.fed()) == digest_of(y.fed()),
        x.fed().len() == 0 ==> digest_of(x.fed()) is None,
        x.fed().len() > 0 ==> digest_of(x.fed()) is Some,
{
}

} // verus!
