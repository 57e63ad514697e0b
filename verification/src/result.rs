//! Build results: opaque handles to boundary-owned aggregates of errors,
//! warnings and output files, with read-only projections over them.

use vstd::prelude::*;

verus! {

use vstd::string::StringSliceAdditionalSpecFns;

/// An owned handle to a boundary-owned build result aggregate. Destroyed
/// exactly once, through the engine's destroy entry point.
pub struct BuildResult {
    pub handle: u64,
}

/// A read-only view over one output file of a build result.
#[derive(Clone, Copy)]
pub struct OutputFile {
    pub(crate) w: crate::wire::WireOutputFile,
}

impl OutputFile {
    /// The wire record this view reads.
    pub closed spec fn wire(self) -> crate::wire::WireOutputFile {
        self.w
    }

    pub fn from_wire(w: crate::wire::WireOutputFile) -> (r: OutputFile)
        ensures
            r.wire() == w,
    {
        OutputFile { w }
    }

    /// The raw bytes of this output, borrowed from the boundary.
    pub fn contents<'s>(&self, b: &'s crate::wire::Boundary) -> (r: &'s [u8])
        requires
            self.wire().wf(b@),
        ensures
            r@ == self.wire().read(b@).contents,
    {
        if self.w.contents.addr != 0 {
            b.read_bytes(self.w.contents).as_slice()
        } else {
            &[]
        }
    }

    /// The output's path, borrowed from the boundary.
    pub fn path<'s>(&self, b: &'s crate::wire::Boundary) -> (r: &'s str)
        requires
            self.wire().wf(b@),
        ensures
            r@ == self.wire().read(b@).path,
    {
        if self.w.path.addr != 0 {
            b.read_text(self.w.path).as_str()
        } else {
            proof {
                reveal_strlit("");
            }
            ""
        }
    }
}

} // verus!

verus! {

/// One build in flight, driven step by step: the caller (standing in for
/// the boundary's worker thread) asks for the next registered hook,
/// hands its outcome back, and finally completes the build.
pub struct BuildJob {
    handle: u64,
}

impl BuildJob {
    pub closed spec fn id(self) -> u64 {
        self.handle
    }

    /// Names the job with the given handle.
    pub fn of(handle: u64) -> (r: BuildJob)
        ensures
            r.id() == handle,
    {
        BuildJob { handle }
    }

    pub(crate) fn handle(&self) -> (h: u64)
        ensures
            h == self.id(),
    {
        self.handle
    }
}

} // verus!

verus! {

/// Relies on core::str::from_utf8: it accepts exactly the valid UTF-8
/// byte sequences, and the accepted string views those very bytes.
#[verifier::external_body]
fn utf8_decode(v: &[u8]) -> (r: Option<&str>)
    ensures
        match r {
            Some(s) => vstd::utf8::valid_utf8(v@) && s.spec_bytes() == v@,
            None => !vstd::utf8::valid_utf8(v@),
        },
{
    match core::str::from_utf8(v) {
        Ok(s) => Some(s),
        Err(_) => None,
    }
}

impl OutputFile {
    /// The output decoded as text, when its bytes are valid UTF-8; the
    /// decode failure is reported rather than silently corrupting data.
    pub fn contents_str<'s>(&self, b: &'s crate::wire::Boundary) -> (r: Option<&'s str>)
        requires
            self.wire().wf(b@),
        ensures
            match r {
                Some(s) => vstd::utf8::valid_utf8(self.wire().read(b@).contents)
                    && s.spec_bytes() == self.wire().read(b@).contents,
                None => !vstd::utf8::valid_utf8(self.wire().read(b@).contents),
            },
    {
        utf8_decode(self.contents(b))
    }
}

} // verus!
