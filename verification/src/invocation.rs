//! A slash command invocation written back as text, such as
//! `/register discord_id:<@123> quake_name:foo score:5`, for the audit log.

use vstd::prelude::*;
use vstd::string::*;
use crate::players::{decimal, decimal_text};

verus! {

/// The value given for one option of a command.
#[derive(Debug, Clone)]
pub enum OptionValue {
    Text(String),
    Integer(i64),
    /// A number, already written out.
    Number(String),
    Boolean(bool),
    User(u64),
    Mentionable(u64),
    Channel(u64),
    Role(u64),
    Attachment(u64),
    /// The text being typed in an autocompleted option.
    Focused(String),
}

/// One option of a command invocation: a subcommand (or group of them) with
/// its own options, or a named value.
#[derive(Debug)]
pub enum CommandOption {
    Group { name: String, options: Vec<CommandOption> },
    Value { name: String, value: OptionValue },
}

/// A signed number written in decimal.
pub open spec fn signed_decimal(i: i64) -> Seq<char> {
    if i < 0 {
        seq!['-'] + decimal((-(i as int)) as nat)
    } else {
        decimal(i as nat)
    }
}

/// How a value is written: mentions as `<@id>`, channels as `<#id>`,
/// roles as `<@&id>`, numbers in decimal, texts as they are.
pub open spec fn value_text(v: OptionValue) -> Seq<char> {
    match v {
        OptionValue::Text(s) => s@,
        OptionValue::Integer(i) => signed_decimal(i),
        OptionValue::Number(s) => s@,
        OptionValue::Boolean(b) => if b {
            "true"@
        } else {
            "false"@
        },
        OptionValue::User(id) => "<@"@ + decimal(id as nat) + ">"@,
        OptionValue::Mentionable(id) => "<@"@ + decimal(id as nat) + ">"@,
        OptionValue::Channel(id) => "<#"@ + decimal(id as nat) + ">"@,
        OptionValue::Role(id) => "<@&"@ + decimal(id as nat) + ">"@,
        OptionValue::Attachment(id) => decimal(id as nat),
        OptionValue::Focused(s) => s@,
    }
}

/// Options written one after another: ` name` and then the subcommand's
/// own options for a subcommand, ` name:value` for a value.
pub open spec fn options_text(options: Seq<CommandOption>) -> Seq<char>
    decreases options, 0nat,
{
    if options.len() == 0 {
        Seq::empty()
    } else {
        options_text(options.drop_last()) + option_text(options.last())
    }
}

pub open spec fn option_text(option: CommandOption) -> Seq<char>
    decreases option, 1nat,
{
    match option {
        CommandOption::Group { name, options } => " "@ + name@ + options_text(options@),
        CommandOption::Value { name, value } => " "@ + name@ + ":"@ + value_text(value),
    }
}

fn signed_decimal_text(i: i64) -> (r: String)
    ensures
        r@ == signed_decimal(i),
{
    if i < 0 {
        let magnitude: u64 = if i == i64::MIN {
            9223372036854775808u64
        } else {
            (-i) as u64
        };
        let mut r = String::from_str("-");
        let digits = decimal_text(magnitude);
        r.append(digits.as_str());
        proof {
            reveal_strlit("-");
        }
        r
    } else {
        decimal_text(i as u64)
    }
}

fn id_text(prefix: &str, id: u64) -> (r: String)
    ensures
        r@ == prefix@ + decimal(id as nat) + ">"@,
{
    let mut r = String::from_str(prefix);
    let digits = decimal_text(id);
    r.append(digits.as_str());
    r.append(">");
    r
}

/// How a value is written; see `value_text`.
pub fn render_value(value: &OptionValue) -> (r: String)
    ensures
        r@ == value_text(*value),
{
    match value {
        OptionValue::Text(s) => s.clone(),
        OptionValue::Integer(i) => signed_decimal_text(*i),
        OptionValue::Number(s) => s.clone(),
        OptionValue::Boolean(b) => if *b {
            String::from_str("true")
        } else {
            String::from_str("false")
        },
        OptionValue::User(id) => id_text("<@", *id),
        OptionValue::Mentionable(id) => id_text("<@", *id),
        OptionValue::Channel(id) => id_text("<#", *id),
        OptionValue::Role(id) => id_text("<@&", *id),
        OptionValue::Attachment(id) => decimal_text(*id),
        OptionValue::Focused(s) => s.clone(),
    }
}

/// Appends the options, written as `options_text` says.
pub fn render_options(options: &Vec<CommandOption>, out: &mut String)
    ensures
        final(out)@ == old(out)@ + options_text(options@),
    decreases options@, 0nat,
{
    let mut i: usize = 0;
    let ghost start = out@;
    assert(options@.take(0) =~= Seq::<CommandOption>::empty());
    while i < options.len()
        invariant
            i <= options@.len(),
            out@ == start + options_text(options@.take(i as int)),
        decreases options@.len() - i,
    {
        proof {
            assert(options@.take(i + 1).drop_last() =~= options@.take(i as int));
            assert(options@.take(i + 1).last() == options@[i as int]);
        }
        render_option(&options[i], out);
        i += 1;
        proof {
            assert(out@ =~= start + options_text(options@.take(i as int)));
        }
    }
    assert(options@.take(options@.len() as int) =~= options@);
}

/// Appends one option, written as `option_text` says.
pub fn render_option(option: &CommandOption, out: &mut String)
    ensures
        final(out)@ == old(out)@ + option_text(*option),
    decreases *option, 1nat,
{
    match option {
        CommandOption::Group { name, options } => {
            out.append(" ");
            out.append(name.as_str());
            render_options(options, out);
        },
        CommandOption::Value { name, value } => {
            out.append(" ");
            out.append(name.as_str());
            out.append(":");
            let text = render_value(value);
            out.append(text.as_str());
        },
    }
}

/// The invocation of command `name` with its options, as text: `/name`
/// followed by the options.
pub fn render_invocation(name: &str, options: &Vec<CommandOption>) -> (r: String)
    ensures
        r@ == "/"@ + name@ + options_text(options@),
{
    let mut r = String::from_str("/");
    r.append(name);
    render_options(options, &mut r);
    r
}

} // verus!
