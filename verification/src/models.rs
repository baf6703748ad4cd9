//! Plain data types of the application around the engine: conversion
//! job descriptors, the UI tab selector, the chat-completion request and
//! response shapes, and the model catalog of the translation helper.

use vstd::prelude::*;

verus! {

/// Which direction a conversion job runs.
#[derive(Debug, PartialEq, Eq, Structural, Clone, Copy)]
pub enum ConversionType {
    MoToPo,
    PoToMo,
}

/// Where a conversion job stands.
#[derive(Debug, PartialEq, Eq, Structural, Clone, Copy)]
pub enum ConversionStatus {
    Pending,
    Processing,
    Completed,
    Failed,
}

impl Default for ConversionStatus {
    fn default() -> (r: Self)
        ensures
            r == ConversionStatus::Pending,
    {
        ConversionStatus::Pending
    }
}

impl ConversionStatus {
    /// The user-facing label of the status.
    pub fn label(&self) -> (r: &'static str)
        ensures
            self is Pending ==> r@ == "\u{7b49}\u{5f85}\u{5904}\u{7406}"@,
            self is Processing ==> r@ == "\u{5904}\u{7406}\u{4e2d}"@,
            self is Completed ==> r@ == "\u{5b8c}\u{6210}"@,
            self is Failed ==> r@ == "\u{5931}\u{8d25}"@,
    {
        match self {
            ConversionStatus::Pending => "\u{7b49}\u{5f85}\u{5904}\u{7406}",
            ConversionStatus::Processing => "\u{5904}\u{7406}\u{4e2d}",
            ConversionStatus::Completed => "\u{5b8c}\u{6210}",
            ConversionStatus::Failed => "\u{5931}\u{8d25}",
        }
    }
}

/// Whether a language package is installed and active.
#[derive(Debug, PartialEq, Eq, Structural, Clone, Copy)]
pub enum ModStatus {
    Enabled,
    Disabled,
    NotInstalled,
}

impl Default for ModStatus {
    fn default() -> (r: Self)
        ensures
            r == ModStatus::NotInstalled,
    {
        ModStatus::NotInstalled
    }
}

impl ModStatus {
    /// The user-facing label of the status.
    pub fn label(&self) -> (r: &'static str)
        ensures
            self is Enabled ==> r@ == "\u{5df2}\u{542f}\u{7528}"@,
            self is Disabled ==> r@ == "\u{5df2}\u{7981}\u{7528}"@,
            self is NotInstalled ==> r@ == "\u{672a}\u{5b89}\u{88c5}"@,
    {
        match self {
            ModStatus::Enabled => "\u{5df2}\u{542f}\u{7528}",
            ModStatus::Disabled => "\u{5df2}\u{7981}\u{7528}",
            ModStatus::NotInstalled => "\u{672a}\u{5b89}\u{88c5}",
        }
    }
}

/// Which tab of the package manager window is open.
#[derive(Debug, PartialEq, Eq, Structural, Clone, Copy)]
pub enum ModsTab {
    Mods,
    Package,
    Settings,
    OpenAI,
}

/// A user-registered chat model.
#[derive(Debug, Clone, PartialEq, Eq)]
pub struct CustomModel {
    pub name: String,
    pub model_id: String,
    pub description: Option<String>,
}

/// One chat message.
#[derive(Debug, Clone)]
pub struct Message {
    pub role: String,
    pub content: String,
}

/// The response of a chat-completion call.
#[derive(Debug)]
pub struct ChatCompletionResponse {
    pub id: Option<String>,
    pub object: Option<String>,
    pub created: Option<u64>,
    pub model: Option<String>,
    pub choices: Vec<ChatCompletionChoice>,
    pub usage: Option<ChatCompletionUsage>,
}

/// One returned completion choice.
#[derive(Debug)]
pub struct ChatCompletionChoice {
    pub index: u32,
    pub message: Message,
    pub finish_reason: Option<String>,
}

/// Token accounting of a chat-completion call.
#[derive(Debug)]
pub struct ChatCompletionUsage {
    pub prompt_tokens: u32,
    pub completion_tokens: u32,
    pub total_tokens: u32,
}

/// The built-in chat models, most general first.
pub fn available_models() -> (r: Vec<String>)
    ensures
        r@.len() == 5,
        r@[0]@ == "gpt-3.5-turbo"@,
        r@[1]@ == "gpt-3.5-turbo-16k"@,
        r@[2]@ == "gpt-4"@,
        r@[3]@ == "gpt-4-turbo"@,
        r@[4]@ == "gpt-4o"@,
{
    let mut r: Vec<String> = Vec::new();
    r.push(String::from_str("gpt-3.5-turbo"));
    r.push(String::from_str("gpt-3.5-turbo-16k"));
    r.push(String::from_str("gpt-4"));
    r.push(String::from_str("gpt-4-turbo"));
    r.push(String::from_str("gpt-4o"));
    r
}

/// The identifiers of `ms` appended to `acc`, skipping those already
/// present.
pub open spec fn spec_add_models(acc: Seq<Seq<char>>, ms: Seq<CustomModel>) -> Seq<Seq<char>>
    decreases ms.len(),
{
    if ms.len() == 0 {
        acc
    } else {
        let id = ms[0].model_id@;
        let acc2 = if acc.contains(id) {
            acc
        } else {
            acc.push(id)
        };
        spec_add_models(acc2, ms.skip(1))
    }
}

/// All selectable model identifiers: the built-in ones, then the custom
/// ones that do not repeat an earlier identifier.
pub fn get_all_models(custom_models: &Vec<CustomModel>) -> (r: Vec<String>)
    ensures
        r@.map_values(|m: String| m@) == spec_add_models(
            available_models_view(),
            custom_models@,
        ),
{
    let mut models = available_models();
    proof {
        assert(models@.map_values(|m: String| m@) =~= available_models_view());
    }
    let n = custom_models.len();
    let mut i: usize = 0;
    let ghost mview = |m: String| m@;
    proof {
        assert(custom_models@.skip(0) =~= custom_models@);
    }
    while i < n
        invariant
            i <= n,
            n == custom_models@.len(),
            mview == (|m: String| m@),
            spec_add_models(available_models_view(), custom_models@) == spec_add_models(
                models@.map_values(mview),
                custom_models@.skip(i as int),
            ),
        decreases n - i,
    {
        proof {
            assert(custom_models@.skip(i as int)[0] == custom_models@[i as int]);
            assert(custom_models@.skip(i as int).skip(1) =~= custom_models@.skip(i as int + 1));
        }
        let id = &custom_models[i].model_id;
        let m = models.len();
        let mut j: usize = 0;
        let mut found = false;
        while j < m
            invariant
                j <= m,
                m == models@.len(),
                mview == (|m: String| m@),
                found == exists|q: int| 0 <= q < j && models@.map_values(mview)[q] == id@,
            decreases m - j,
        {
            if models[j] == *id {
                proof {
                    assert(models@.map_values(mview)[j as int] == id@);
                }
                found = true;
                j = m;
            } else {
                proof {
                    assert(models@.map_values(mview)[j as int] != id@);
                }
                j = j + 1;
            }
        }
        let ghost mv0 = models@.map_values(mview);
        proof {
            assert(found == mv0.contains(id@));
        }
        if !found {
            let id2 = custom_models[i].model_id.clone();
            models.push(id2);
            proof {
                assert(models@.map_values(mview) =~= mv0.push(id@));
            }
        }
        i = i + 1;
    }
    proof {
        assert(custom_models@.skip(n as int) =~= Seq::<CustomModel>::empty());
    }
    models
}

/// The views of the built-in model identifiers.
pub open spec fn available_models_view() -> Seq<Seq<char>> {
    seq!["gpt-3.5-turbo"@, "gpt-3.5-turbo-16k"@, "gpt-4"@, "gpt-4-turbo"@, "gpt-4o"@]
}

/// The first custom model with the given identifier.
pub fn get_custom_model_by_id<'a>(custom_models: &'a Vec<CustomModel>, model_id: &str) -> (r:
    Option<&'a CustomModel>)
    ensures
        match r {
            Some(m) => exists|i: int|
                {
                    &&& 0 <= i < custom_models@.len()
                    &&& #[trigger] custom_models@[i] == *m
                    &&& custom_models@[i].model_id@ == model_id@
                    &&& forall|q: int| 0 <= q < i ==> (#[trigger] custom_models@[q]).model_id@
                        != model_id@
                },
            None => forall|i: int|
                0 <= i < custom_models@.len() ==> (#[trigger] custom_models@[i]).model_id@
                    != model_id@,
        },
{
    let needle = String::from_str(model_id);
    let n = custom_models.len();
    let mut i: usize = 0;
    while i < n
        invariant
            i <= n,
            n == custom_models@.len(),
            needle@ == model_id@,
            forall|q: int| 0 <= q < i ==> (#[trigger] custom_models@[q]).model_id@ != model_id@,
        decreases n - i,
    {
        if custom_models[i].model_id == needle {
            return Some(&custom_models[i]);
        }
        i = i + 1;
    }
    None
}

} // verus!
