//! The canonical text of a descriptor and of a list of descriptors.

use vstd::prelude::*;
use vstd::string::StringExecFns;
use crate::subnet::{views, Block, SubNet};
use crate::text::{decimal_text, digit_char};

verus! {

/// An address in dotted-quad notation: its four octets in base ten, the
/// highest byte first, with dots between them.
pub open spec fn dotted_quad(ip: nat) -> Seq<char> {
    decimal_text(ip / 0x100_0000) + seq!['.'] + decimal_text(ip / 0x1_0000 % 256) + seq!['.']
        + decimal_text(ip / 0x100 % 256) + seq!['.'] + decimal_text(ip % 256)
}

/// A descriptor as a JSON object: the four addresses in dotted-quad
/// notation under `network`, `first`, `last` and `broadcast`, and the number
/// of usable hosts under `nbUsableIp`.
#[verifier::opaque]
pub open spec fn json_text(block: Block) -> Seq<char> {
    "{\n\t\"network\": \""@ + dotted_quad(block.network) + "\",\n\t\"first\": \""@ + dotted_quad(
        block.first,
    ) + "\",\n\t\"last\": \""@ + dotted_quad(block.last) + "\",\n\t\"broadcast\": \""@
        + dotted_quad(block.broadcast) + "\",\n\t\"nbUsableIp\": "@ + decimal_text(block.usable)
        + "\n}"@
}

/// The JSON objects of a list of descriptors in order, with `, ` between
/// them.
pub open spec fn json_items(blocks: Seq<Block>) -> Seq<char>
    decreases blocks.len(),
{
    if blocks.len() == 0 {
        Seq::empty()
    } else if blocks.len() == 1 {
        json_text(blocks[0])
    } else {
        json_items(blocks.drop_last()) + ", "@ + json_text(blocks.last())
    }
}

/// A list of descriptors as a JSON array.
pub open spec fn json_array_text(blocks: Seq<Block>) -> Seq<char> {
    "[\n"@ + json_items(blocks) + "\n]"@
}

/// The digit for a number below ten, as a string.
fn digit_str(digit: u32) -> (text: &'static str)
    requires
        digit < 10,
    ensures
        text@ == seq![digit_char(digit as nat)],
{
    proof {
        reveal_strlit("0");
        reveal_strlit("1");
        reveal_strlit("2");
        reveal_strlit("3");
        reveal_strlit("4");
        reveal_strlit("5");
        reveal_strlit("6");
        reveal_strlit("7");
        reveal_strlit("8");
        reveal_strlit("9");
    }
    match digit {
        0 => "0",
        1 => "1",
        2 => "2",
        3 => "3",
        4 => "4",
        5 => "5",
        6 => "6",
        7 => "7",
        8 => "8",
        _ => "9",
    }
}

/// Appends a number in base ten.
pub fn push_decimal(out: &mut String, number: u32)
    ensures
        final(out)@ == old(out)@ + decimal_text(number as nat),
    decreases number,
{
    if number >= 10 {
        push_decimal(out, number / 10);
    }
    out.append(digit_str(number % 10));
}

/// Appends an address in dotted-quad notation.
pub fn push_dotted_quad(out: &mut String, ip: u32)
    ensures
        final(out)@ == old(out)@ + dotted_quad(ip as nat),
{
    proof {
        reveal_strlit(".");
    }
    push_decimal(out, ip / 0x100_0000);
    out.append(".");
    push_decimal(out, ip / 0x1_0000 % 256);
    out.append(".");
    push_decimal(out, ip / 0x100 % 256);
    out.append(".");
    push_decimal(out, ip % 256);
}

impl SubNet {
    /// Appends the descriptor as a JSON object.
    pub fn push_json(&self, out: &mut String)
        ensures
            final(out)@ == old(out)@ + json_text(self@),
    {
        proof {
            reveal(json_text);
        }
        out.append("{\n\t\"network\": \"");
        push_dotted_quad(out, self.network);
        out.append("\",\n\t\"first\": \"");
        push_dotted_quad(out, self.first);
        out.append("\",\n\t\"last\": \"");
        push_dotted_quad(out, self.last);
        out.append("\",\n\t\"broadcast\": \"");
        push_dotted_quad(out, self.broadcast);
        out.append("\",\n\t\"nbUsableIp\": ");
        push_decimal(out, self.nb_usable_ip);
        out.append("\n}");
    }

    /// Writes the descriptor as a JSON object.
    pub fn to_json(&self) -> (text: String)
        ensures
            text@ == json_text(self@),
    {
        let mut text: String = String::new();
        self.push_json(&mut text);
        text
    }
}

/// Writes a list of descriptors as a JSON array.
pub fn render_json(subnets: &Vec<SubNet>) -> (text: String)
    ensures
        text@ == json_array_text(views(subnets@)),
{
    let mut text: String = String::new();
    text.append("[\n");
    let mut done: usize = 0;
    while done < subnets.len()
        invariant
            done <= subnets@.len(),
            text@ == "[\n"@ + json_items(views(subnets@).take(done as int)),
        decreases subnets@.len() - done,
    {
        let ghost before: Seq<Block> = views(subnets@).take(done as int);
        let ghost after: Seq<Block> = views(subnets@).take(done + 1);
        assert(after.drop_last() =~= before);
        assert(after.last() == subnets@[done as int]@);
        if done > 0 {
            text.append(", ");
        }
        subnets[done].push_json(&mut text);
        done = done + 1;
    }
    assert(views(subnets@).take(done as int) =~= views(subnets@));
    text.append("\n]");
    text
}

} // verus!
