use vstd::prelude::*;

verus! {

/// A failure reported by an input/output channel. End of input is reported
/// through the error channel, never through a sentinel byte value.
#[derive(Clone, Copy, Debug, PartialEq, Eq, Structural)]
pub enum ChannelError {
    EndOfInput,
    Failed,
}

/// The capability interface through which an interpreter performs its only
/// side effects: reading one byte and writing one byte.
///
/// A channel is modelled by the bytes it still has to deliver
/// (`pending_inputs`) and the bytes written to it so far (`written`). Either
/// operation may fail at any time; a successful read is owed only while
/// `pending_inputs` is non-empty, and a successful read always delivers the
/// next pending byte.
pub trait InputOutput: Sized {
    /// The bytes this channel will deliver to subsequent successful reads.
    spec fn pending_inputs(&self) -> Seq<u8>;

    /// The bytes successfully written to this channel so far.
    spec fn written(&self) -> Seq<u8>;

    /// Read one byte, or report a failure (including end of input).
    fn read(&mut self) -> (r: Result<u8, ChannelError>)
        ensures
            final(self).written() == old(self).written(),
            r matches Ok(data) ==> old(self).pending_inputs().len() > 0
                && data == old(self).pending_inputs()[0]
                && final(self).pending_inputs() == old(self).pending_inputs().skip(1),
            r is Err ==> final(self).pending_inputs() == old(self).pending_inputs(),
    ;

    /// Write one byte, or report a failure.
    fn write(&mut self, data: u8) -> (r: Result<(), ChannelError>)
        ensures
            final(self).pending_inputs() == old(self).pending_inputs(),
            r is Ok ==> final(self).written() == old(self).written().push(data),
            r is Err ==> final(self).written() == old(self).written(),
    ;
}

/// A deterministic in-memory channel: reads consume a fixed script of input
/// bytes and writes are collected in order. It never fails spontaneously;
/// a read fails exactly when the script is exhausted. This is the seam for
/// testing an interpreter without console input/output.
pub struct ScriptedInputOutput {
    /// Input bytes not yet delivered, in delivery order.
    pub inputs: Vec<u8>,
    /// Bytes written so far, oldest first.
    pub outputs: Vec<u8>,
}

impl ScriptedInputOutput {
    /// A channel that will deliver exactly the given bytes and has written
    /// nothing yet.
    pub fn new(inputs: Vec<u8>) -> (r: Self)
        ensures
            r.inputs == inputs,
            r.outputs@ == Seq::<u8>::empty(),
    {
        ScriptedInputOutput { inputs, outputs: Vec::new() }
    }
}

impl InputOutput for ScriptedInputOutput {
    open spec fn pending_inputs(&self) -> Seq<u8> {
        self.inputs@
    }

    open spec fn written(&self) -> Seq<u8> {
        self.outputs@
    }

    fn read(&mut self) -> (r: Result<u8, ChannelError>)
        ensures
            r is Ok <==> old(self).pending_inputs().len() > 0,
    {
        if self.inputs.len() > 0 {
            Ok(self.inputs.remove(0))
        } else {
            Err(ChannelError::EndOfInput)
        }
    }

    fn write(&mut self, data: u8) -> (r: Result<(), ChannelError>)
        ensures
            r is Ok,
    {
        self.outputs.push(data);
        Ok(())
    }
}

} // verus!
