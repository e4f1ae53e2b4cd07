use vstd::prelude::*;

verus! {

/// A `flate2::write::GzDecoder` inflating into a `Vec`. Verus does not take
/// the decoder's `Write` bound, so it is held here and read only through the
/// names below.
#[verifier::external_body]
pub struct GzStream {
    d: flate2::write::GzDecoder<Vec<u8>>,
}

/// The bytes written into a gzip decoder so far.
pub uninterp spec fn gz_fed(d: GzStream) -> Seq<u8>;

/// The bytes a gzip decoder has handed out so far.
pub uninterp spec fn gz_out(d: GzStream) -> Seq<u8>;

/// Relies on `flate2::write::GzDecoder::new` over an empty `Vec`: nothing
/// fed, nothing produced.
#[verifier::external_body]
fn gz_new() -> (r: GzStream)
    ensures
        gz_fed(r) == Seq::<u8>::empty(),
        gz_out(r) == Seq::<u8>::empty(),
{
    GzStream { d: flate2::write::GzDecoder::new(Vec::new()) }
}

/// Relies on `GzDecoder`'s `Write::write_all` and `Write::flush`, which
/// inflate into the inner `Vec`, and `GzDecoder::get_mut` to take what was
/// inflated; `Err` when the bytes are not a valid gzip stream.
#[verifier::external_body]
fn gz_write(d: &mut GzStream, chunk: &[u8]) -> (r: Result<Vec<u8>, ()>)
    ensures
        r matches Ok(out) ==> gz_fed(*final(d)) == gz_fed(*old(d)) + chunk@
            && gz_out(*final(d)) == gz_out(*old(d)) + out@,
{
    std::io::Write::write_all(&mut d.d, chunk).map_err(|_| ())?;
    std::io::Write::flush(&mut d.d).map_err(|_| ())?;
    Ok(std::mem::take(d.d.get_mut()))
}

/// Incremental gzip decoder for usage parsing; once the stream is found
/// invalid it stays failed.
pub struct GzipDecoder {
    inner: GzStream,
    failed: bool,
}

impl GzipDecoder {
    /// The compressed bytes accepted so far.
    pub closed spec fn fed(&self) -> Seq<u8> {
        gz_fed(self.inner)
    }

    /// Everything inflated so far.
    pub closed spec fn inflated(&self) -> Seq<u8> {
        gz_out(self.inner)
    }

    pub closed spec fn failed_spec(&self) -> bool {
        self.failed
    }

    pub fn new() -> (r: GzipDecoder)
        ensures
            r.fed() == Seq::<u8>::empty(),
            r.inflated() == Seq::<u8>::empty(),
            !r.failed_spec(),
    {
        GzipDecoder { inner: gz_new(), failed: false }
    }

    /// Inflates one chunk of a gzip body. The output continues what was
    /// inflated before; `Err` once the body cannot be decoded, after which
    /// every chunk is refused.
    pub fn decompress_chunk(&mut self, input: &[u8]) -> (r: Result<Vec<u8>, ()>)
        ensures
            old(self).failed_spec() ==> r is Err && *final(self) == *old(self),
            r is Err ==> final(self).failed_spec(),
            r matches Ok(out) ==> !final(self).failed_spec()
                && final(self).fed() == old(self).fed() + input@
                && final(self).inflated() == old(self).inflated() + out@,
    {
        if self.failed {
            return Err(());
        }
        match gz_write(&mut self.inner, input) {
            Ok(out) => Ok(out),
            Err(()) => {
                self.failed = true;
                Err(())
            },
        }
    }
}

} // verus!
