//! A single-pass assembler for a small 16-bit register machine.
//!
//! A source text is a sequence of lines, each ended by a carriage return and a
//! line feed. A line is a comment, a label definition or one instruction, and every
//! instruction becomes one 16-bit word of the image, written high byte first.
//!
//! * [`text`] splits the source into lines and a line into tokens.
//! * [`bits`] renders numbers as bit strings and says what a bit string denotes.
//! * [`registers`] and [`opcode`] hold the two tables of the machine, [`operand`]
//!   tells immediates from register names.
//! * [`labels`] holds the label table.
//! * [`encode`] makes the bits of each instruction, [`emit`] turns them into bytes.
//! * [`driver`] runs the pass.

pub mod bits;
pub mod driver;
pub mod emit;
pub mod encode;
pub mod error;
pub mod labels;
pub mod opcode;
pub mod operand;
pub mod registers;
pub mod text;
