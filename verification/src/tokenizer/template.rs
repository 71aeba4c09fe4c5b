//! Chat templates: from messages to a prompt.

use vstd::prelude::*;
use vstd::string::*;

verus! {

/// Renders chat messages into a prompt string.
///
/// The format is selected explicitly from the architecture rather than
/// guessed: a wrong one yields a subtly wrong prompt.
#[derive(Debug, Clone, Copy, PartialEq, Eq, Structural)]
pub enum ChatTemplate {
    /// `<|start_header_id|>role<|end_header_id|>\n\ncontent<|eot_id|>`
    Llama3,
    /// `<|im_start|>role\ncontent<|im_end|>`
    ChatMl,
    /// No template: messages are concatenated with newlines. For base models.
    Plain,
}

impl ChatTemplate {
    /// The template for an architecture name.
    pub open spec fn fitting(arch: Seq<char>) -> ChatTemplate {
        if arch == "qwen2"@ {
            ChatTemplate::ChatMl
        } else if arch == "llama"@ {
            ChatTemplate::Llama3
        } else {
            ChatTemplate::Plain
        }
    }

    /// Picks a template for an architecture name.
    pub fn for_architecture(arch: &str) -> (r: Self)
        ensures
            r == Self::fitting(arch@),
            arch@ == "qwen2"@ ==> r is ChatMl,
            arch@ == "llama"@ ==> r is Llama3,
            arch@ != "qwen2"@ && arch@ != "llama"@ ==> r is Plain,
    {
        proof {
            reveal_strlit("qwen2");
            reveal_strlit("llama");
            assert("qwen2"@[0] != "llama"@[0]);
        }
        if same_text(arch, "qwen2") {
            ChatTemplate::ChatMl
        } else if same_text(arch, "llama") {
            ChatTemplate::Llama3
        } else {
            ChatTemplate::Plain
        }
    }

    /// One message in this format.
    pub open spec fn turn(self, role: Seq<char>, content: Seq<char>) -> Seq<char> {
        match self {
            ChatTemplate::Llama3 => "<|start_header_id|>"@ + role + "<|end_header_id|>\n\n"@
                + content + "<|eot_id|>"@,
            ChatTemplate::ChatMl => "<|im_start|>"@ + role + "\n"@ + content + "<|im_end|>\n"@,
            ChatTemplate::Plain => content + "\n"@,
        }
    }

    /// The opening of an assistant turn.
    pub open spec fn opening(self) -> Seq<char> {
        match self {
            ChatTemplate::Llama3 => "<|start_header_id|>assistant<|end_header_id|>\n\n"@,
            ChatTemplate::ChatMl => "<|im_start|>assistant\n"@,
            ChatTemplate::Plain => Seq::empty(),
        }
    }

    /// The messages in this format, one after the other.
    pub open spec fn turns(self, messages: Seq<(String, String)>) -> Seq<char>
        decreases messages.len(),
    {
        if messages.len() == 0 {
            Seq::empty()
        } else {
            self.turns(messages.drop_last()) + self.turn(messages.last().0@, messages.last().1@)
        }
    }

    /// Renders messages, appending the opening of an assistant turn so the
    /// model continues rather than starting a new turn of its own.
    pub fn render(self, messages: &[(String, String)]) -> (r: String)
        ensures
            r@ == self.turns(messages@) + self.opening(),
            messages@.len() == 1 && self is Llama3 ==> r@ == "<|start_header_id|>"@
                + messages@[0].0@ + "<|end_header_id|>\n\n"@ + messages@[0].1@ + "<|eot_id|>"@
                + "<|start_header_id|>assistant<|end_header_id|>\n\n"@,
            messages@.len() == 1 && self is ChatMl ==> r@ == "<|im_start|>"@ + messages@[0].0@
                + "\n"@ + messages@[0].1@ + "<|im_end|>\n"@ + "<|im_start|>assistant\n"@,
            messages@.len() == 1 && self is Plain ==> r@ == messages@[0].1@ + "\n"@,
            messages@.len() == 0 && self is Llama3 ==> r@
                == "<|start_header_id|>assistant<|end_header_id|>\n\n"@,
            messages@.len() == 0 && self is ChatMl ==> r@ == "<|im_start|>assistant\n"@,
            messages@.len() == 0 && self is Plain ==> r@.len() == 0,
    {
        let mut out = String::new();
        let mut i: usize = 0;
        proof {
            assert(messages@.take(0) =~= seq![]);
        }
        while i < messages.len()
            invariant
                i <= messages@.len(),
                out@ == self.turns(messages@.take(i as int)),
            decreases messages@.len() - i,
        {
            let ghost before = out@;
            let message = &messages[i];
            let role = message.0.as_str();
            let content = message.1.as_str();
            match self {
                ChatTemplate::Llama3 => {
                    out.append("<|start_header_id|>");
                    out.append(role);
                    out.append("<|end_header_id|>\n\n");
                    out.append(content);
                    out.append("<|eot_id|>");
                },
                ChatTemplate::ChatMl => {
                    out.append("<|im_start|>");
                    out.append(role);
                    out.append("\n");
                    out.append(content);
                    out.append("<|im_end|>\n");
                },
                ChatTemplate::Plain => {
                    out.append(content);
                    out.append("\n");
                },
            }
            proof {
                let now = messages@.take(i + 1);
                assert(now.drop_last() =~= messages@.take(i as int));
                assert(out@ =~= before + self.turn(role@, content@));
            }
            i += 1;
        }
        proof {
            assert(messages@.take(messages@.len() as int) =~= messages@);
        }
        let ghost body = out@;
        match self {
            ChatTemplate::Llama3 => {
                out.append("<|start_header_id|>assistant<|end_header_id|>\n\n");
            },
            ChatTemplate::ChatMl => {
                out.append("<|im_start|>assistant\n");
            },
            ChatTemplate::Plain => {},
        }
        proof {
            assert(out@ =~= body + self.opening());
            if messages@.len() == 0 {
                assert(body =~= Seq::empty());
            }
            if messages@.len() == 1 {
                assert(self.turns(messages@.drop_last()) =~= Seq::empty());
                assert(body =~= self.turn(messages@[0].0@, messages@[0].1@));
            }
        }
        out
    }
}

/// Whether two texts are the same.
pub fn same_text(a: &str, b: &str) -> (r: bool)
    ensures
        r == (a@ == b@),
{
    let x = crate::tokenizer::chars::char_vec(a);
    let y = crate::tokenizer::chars::char_vec(b);
    if x.len() != y.len() {
        return false;
    }
    let mut i: usize = 0;
    while i < x.len()
        invariant
            x@ == a@,
            y@ == b@,
            x@.len() == y@.len(),
            i <= x@.len(),
            forall|k: int| 0 <= k < i ==> x@[k] == y@[k],
        decreases x@.len() - i,
    {
        if x[i] != y[i] {
            return false;
        }
        i += 1;
    }
    proof {
        assert(a@ =~= b@);
    }
    true
}

/// A rendered prompt begins with the messages in their order, and a further
/// message leaves those before it as they were.
pub proof fn law_messages_are_rendered_in_order(
    t: ChatTemplate,
    messages: Seq<(String, String)>,
    more: (String, String),
)
    ensures
        t.turns(messages.push(more)) == t.turns(messages) + t.turn(more.0@, more.1@),
{
    assert(messages.push(more).drop_last() =~= messages);
}

/// What a message adds to a rendering, in each format: its header with the role,
/// its content, and its end mark, in this order, behind all earlier messages.
pub proof fn law_a_message_stands_between_its_header_and_its_end(
    messages: Seq<(String, String)>,
    more: (String, String),
)
    ensures
        ChatTemplate::Llama3.turns(messages.push(more)) == ChatTemplate::Llama3.turns(messages)
            + "<|start_header_id|>"@ + more.0@ + "<|end_header_id|>\n\n"@ + more.1@
            + "<|eot_id|>"@,
        ChatTemplate::ChatMl.turns(messages.push(more)) == ChatTemplate::ChatMl.turns(messages)
            + "<|im_start|>"@ + more.0@ + "\n"@ + more.1@ + "<|im_end|>\n"@,
        ChatTemplate::Plain.turns(messages.push(more)) == ChatTemplate::Plain.turns(messages)
            + more.1@ + "\n"@,
{
    assert(messages.push(more).drop_last() =~= messages);
    assert(ChatTemplate::Llama3.turns(messages.push(more)) =~= ChatTemplate::Llama3.turns(messages)
        + "<|start_header_id|>"@ + more.0@ + "<|end_header_id|>\n\n"@ + more.1@ + "<|eot_id|>"@);
    assert(ChatTemplate::ChatMl.turns(messages.push(more)) =~= ChatTemplate::ChatMl.turns(messages)
        + "<|im_start|>"@ + more.0@ + "\n"@ + more.1@ + "<|im_end|>\n"@);
    assert(ChatTemplate::Plain.turns(messages.push(more)) =~= ChatTemplate::Plain.turns(messages)
        + more.1@ + "\n"@);
}

/// No messages render to nothing, and every rendering ends by opening the
/// assistant's turn.
pub proof fn law_renderings_open_the_assistant_turn()
    ensures
        ChatTemplate::Llama3.turns(Seq::empty()).len() == 0,
        ChatTemplate::ChatMl.turns(Seq::empty()).len() == 0,
        ChatTemplate::Plain.turns(Seq::empty()).len() == 0,
        ChatTemplate::Llama3.opening() == "<|start_header_id|>assistant<|end_header_id|>\n\n"@,
        ChatTemplate::ChatMl.opening() == "<|im_start|>assistant\n"@,
        ChatTemplate::Plain.opening().len() == 0,
{
}

} // verus!
