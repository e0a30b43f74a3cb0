//! Client-side connection settings.

use vstd::prelude::*;

verus! {

/// How a client connection is provisioned: the largest message it will
/// accept and how many outbound messages it will queue.
#[derive(Debug, Clone)]
pub struct ConnectionConfiguration {
    max_message_size: usize,
    queued_messages: usize,
}

impl ConnectionConfiguration {
    /// The configured maximum message size.
    pub closed spec fn spec_max_message_size(self) -> int {
        self.max_message_size as int
    }

    /// The configured outbound queue depth.
    pub closed spec fn spec_queued_messages(self) -> int {
        self.queued_messages as int
    }

    /// Reads the configured maximum message size.
    pub fn configured_max_message_size(&self) -> (r: usize)
        ensures
            r == self.spec_max_message_size(),
    {
        self.max_message_size
    }

    /// Reads the configured outbound queue depth.
    pub fn configured_queued_messages(&self) -> (r: usize)
        ensures
            r == self.spec_queued_messages(),
    {
        self.queued_messages
    }

    /// Sets the maximum message size.
    pub fn max_message_size(&mut self, max_message_size: usize)
        ensures
            final(self).spec_max_message_size() == max_message_size,
            final(self).spec_queued_messages() == old(self).spec_queued_messages(),
    {
        self.max_message_size = max_message_size;
    }

    /// Sets the outbound queue depth.
    pub fn queued_messages(&mut self, queued_messages: usize)
        ensures
            final(self).spec_queued_messages() == queued_messages,
            final(self).spec_max_message_size() == old(self).spec_max_message_size(),
    {
        self.queued_messages = queued_messages;
    }
}

impl Default for ConnectionConfiguration {
    /// An eight-mebibyte message ceiling and a modest outbound queue.
    fn default() -> (r: Self)
        ensures
            r.spec_max_message_size() == 8388608,
            r.spec_queued_messages() == 256,
    {
        Self { max_message_size: 8388608, queued_messages: 256 }
    }
}

} // verus!
