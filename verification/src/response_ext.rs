//! Replies that belong to the commands rather than to the protocol: the
//! canonical errors and the help listing.

use crate::byte_string::{extend_bytes, extend_shown, lower_bytes, shown, upper_bytes, ByteStr};
use crate::response::{array_frame, error_frame, simple_frame, RespSym, Response};
use vstd::prelude::*;
use vstd::string::StringSliceAdditionalSpecFns;

verus! {

/// The bytes of a text.
pub open spec fn text(s: &str) -> Seq<u8> {
    s.spec_bytes()
}

/// The reply to a command applied to a key that holds another type.
pub open spec fn wrong_type_reply() -> Seq<u8> {
    error_frame(text("WRONGTYPE Operation against a key holding the wrong kind of value"))
}

/// The reply to an argument that is no integer, or none that fits.
pub open spec fn not_a_number_reply() -> Seq<u8> {
    error_frame(text("ERR value is not an integer or out of range"))
}

/// The reply to a request with the wrong number of arguments.
pub open spec fn wrong_arity_reply(command: Seq<u8>) -> Seq<u8> {
    error_frame(
        text("ERR wrong number of arguments for '") + shown(lower_bytes(command)) + text(
            "' command",
        ),
    )
}

/// The reply to an unknown subcommand, or one with the wrong arguments.
pub open spec fn subcommand_syntax_reply(command: Seq<u8>, sub_command: Seq<u8>) -> Seq<u8> {
    error_frame(
        text("ERR Unknown subcommand or wrong number of arguments for '") + shown(sub_command)
            + text("'. Try ") + shown(upper_bytes(command)) + text(" HELP."),
    )
}

/// The lines of a help text, each as a simple string.
pub open spec fn help_lines(help: Seq<&str>) -> Seq<u8>
    decreases help.len(),
{
    if help.len() == 0 {
        Seq::<u8>::empty()
    } else {
        help_lines(help.drop_last()) + simple_frame(text(help.last()))
    }
}

/// The help reply of a command: an array of the header and the help lines.
pub open spec fn help_reply(command: Seq<u8>, help: Seq<&str>) -> Seq<u8> {
    array_frame(help.len() as int + 1) + simple_frame(
        shown(upper_bytes(command)) + text(" <subcommand> arg arg ... arg. Subcommands are:"),
    ) + help_lines(help)
}

/// Helper methods that extend `Response` with the replies of the commands.
pub trait ResponseExt: View<V = Seq<u8>> {
    fn add_reply_help(&mut self, command: ByteStr, help: &[&str])
        requires
            help@.len() < i64::MAX,
        ensures
            final(self)@ == old(self)@ + help_reply(command@, help@),
    ;

    fn add_reply_subcommand_syntax_error(&mut self, command: ByteStr, sub_command: ByteStr)
        ensures
            final(self)@ == old(self)@ + subcommand_syntax_reply(command@, sub_command@),
    ;

    fn add_reply_wrong_number_of_arguments(&mut self, command: ByteStr)
        ensures
            final(self)@ == old(self)@ + wrong_arity_reply(command@),
    ;

    fn add_reply_wrong_type(&mut self)
        ensures
            final(self)@ == old(self)@ + wrong_type_reply(),
    ;

    fn add_reply_not_a_number(&mut self)
        ensures
            final(self)@ == old(self)@ + not_a_number_reply(),
    ;
}

impl ResponseExt for Response {
    fn add_reply_help(&mut self, command: ByteStr, help: &[&str]) {
        self.add_array_len(help.len() as i64 + 1);
        let upper = command.to_uppercase();
        let mut lead: Vec<u8> = Vec::new();
        extend_shown(&mut lead, upper.as_slice());
        extend_bytes(&mut lead, " <subcommand> arg arg ... arg. Subcommands are:".as_bytes());
        self.add_line(RespSym::SimpleString, lead.as_slice());
        let ghost start = self@;
        let mut i: usize = 0;
        while i < help.len()
            invariant
                i <= help.len(),
                self@ == start + help_lines(help@.take(i as int)),
            decreases help.len() - i,
        {
            proof {
                assert(help@.take(i + 1).drop_last() =~= help@.take(i as int));
            }
            self.add_simple_string(help[i]);
            i += 1;
            assert(self@ =~= start + help_lines(help@.take(i as int)));
        }
        assert(help@.take(help.len() as int) =~= help@);
        assert(self@ =~= old(self)@ + help_reply(command@, help@));
    }

    fn add_reply_subcommand_syntax_error(&mut self, command: ByteStr, sub_command: ByteStr) {
        let upper = command.to_uppercase();
        let mut message: Vec<u8> = Vec::new();
        extend_bytes(
            &mut message,
            "ERR Unknown subcommand or wrong number of arguments for '".as_bytes(),
        );
        extend_shown(&mut message, sub_command.as_slice());
        extend_bytes(&mut message, "'. Try ".as_bytes());
        extend_shown(&mut message, upper.as_slice());
        extend_bytes(&mut message, " HELP.".as_bytes());
        self.add_line(RespSym::Error, message.as_slice());
    }

    fn add_reply_wrong_number_of_arguments(&mut self, command: ByteStr) {
        let lower = command.to_lowercase();
        let mut message: Vec<u8> = Vec::new();
        extend_bytes(&mut message, "ERR wrong number of arguments for '".as_bytes());
        extend_shown(&mut message, lower.as_slice());
        extend_bytes(&mut message, "' command".as_bytes());
        self.add_line(RespSym::Error, message.as_slice());
    }

    fn add_reply_wrong_type(&mut self) {
        self.add_error("WRONGTYPE Operation against a key holding the wrong kind of value");
    }

    fn add_reply_not_a_number(&mut self) {
        self.add_error("ERR value is not an integer or out of range");
    }
}

} // verus!
