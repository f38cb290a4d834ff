//! Interpretation of build-log control messages.
//!
//! Each element of the build-log array is expected to be a JSON object.
//! Recognised members: `isSuccess` (boolean, last write wins, the final
//! build verdict), `message` (text to append as a log line, erasing the
//! previous line first when `replace` is true) and `resource == "cursor"`
//! with `value == "erase"` (erase the previous line without new text).
//! Unrecognised members are ignored; a non-object element is an error.
//!
//! [`BuildLog`] keeps the visible log lines as the raw string contents,
//! with JSON string escapes unresolved; rendering resolves them.

use vstd::prelude::*;

use crate::json::{bytes_eq, jview, lemma_jview_shape, obj_view, Json, JsonV, lemma_obj_view};

verus! {

/// Member lookup in a JSON object: the last binding of the key wins, as in
/// decoders that collapse duplicate keys into a map.
pub open spec fn lookup(ms: Seq<(Seq<u8>, JsonV)>, key: Seq<u8>) -> Option<JsonV>
    decreases ms.len(),
{
    if ms.len() == 0 {
        None
    } else if ms.last().0 == key {
        Some(ms.last().1)
    } else {
        lookup(ms.drop_last(), key)
    }
}

pub open spec fn key_is_success() -> Seq<u8> {
    seq![105u8, 115u8, 83u8, 117u8, 99u8, 99u8, 101u8, 115u8, 115u8]
}

pub open spec fn key_message() -> Seq<u8> {
    seq![109u8, 101u8, 115u8, 115u8, 97u8, 103u8, 101u8]
}

pub open spec fn key_replace() -> Seq<u8> {
    seq![114u8, 101u8, 112u8, 108u8, 97u8, 99u8, 101u8]
}

pub open spec fn key_resource() -> Seq<u8> {
    seq![114u8, 101u8, 115u8, 111u8, 117u8, 114u8, 99u8, 101u8]
}

pub open spec fn key_value() -> Seq<u8> {
    seq![118u8, 97u8, 108u8, 117u8, 101u8]
}

pub open spec fn word_cursor() -> Seq<u8> {
    seq![99u8, 117u8, 114u8, 115u8, 111u8, 114u8]
}

pub open spec fn word_erase() -> Seq<u8> {
    seq![101u8, 114u8, 97u8, 115u8, 101u8]
}

/// Why a control message was rejected.
#[derive(PartialEq, Eq, Structural, Clone, Copy, Debug)]
pub enum LogError {
    /// The decoded element is not a JSON object.
    NotObject,
    /// `isSuccess` is present but not a boolean.
    FlagNotBool,
    /// `replace` is present but not a boolean.
    ReplaceNotBool,
    /// `message` is present but not a string.
    TextNotString,
    /// `resource` is present but not a string.
    ResourceNotString,
    /// `resource` is `"cursor"` but `value` is absent.
    CursorValueMissing,
    /// `resource` is `"cursor"` but `value` is not a string.
    CursorValueNotString,
}

/// A rendering effect, in the order effects must reach the terminal.
#[derive(Debug, PartialEq, Eq)]
pub enum LogAction {
    /// Print a new line of text (raw string contents).
    Print(Vec<u8>),
    /// Move the cursor up one line and print over the previous line.
    MoveUpPrint(Vec<u8>),
    /// Move the cursor up one line and clear it.
    EraseLine,
}

/// Model of a rendering effect.
pub enum LogActV {
    Print(Seq<u8>),
    MoveUpPrint(Seq<u8>),
    EraseLine,
}

pub open spec fn act_view(a: LogAction) -> LogActV {
    match a {
        LogAction::Print(t) => LogActV::Print(t@),
        LogAction::MoveUpPrint(t) => LogActV::MoveUpPrint(t@),
        LogAction::EraseLine => LogActV::EraseLine,
    }
}

pub open spec fn acts_view(s: Seq<LogAction>) -> Seq<LogActV> {
    Seq::new(s.len(), |i: int| act_view(s[i]))
}

/// The visible lines after erasing the last one; erasing from an empty
/// screen is a no-op.
pub open spec fn erase_last(lines: Seq<Seq<u8>>) -> Seq<Seq<u8>> {
    if lines.len() > 0 {
        lines.drop_last()
    } else {
        lines
    }
}

/// The build verdict after one message: `isSuccess` overwrites it.
pub open spec fn sp_flag_after(ms: Seq<(Seq<u8>, JsonV)>, success: bool) -> Result<bool, LogError> {
    match lookup(ms, key_is_success()) {
        Option::None => Ok(success),
        Option::Some(JsonV::Bool(b)) => Ok(b),
        Option::Some(_) => Err(LogError::FlagNotBool),
    }
}

/// The visible lines and effects of the `message`/`replace` members.
pub open spec fn sp_text_after(ms: Seq<(Seq<u8>, JsonV)>, lines: Seq<Seq<u8>>) -> Result<
    (Seq<Seq<u8>>, Seq<LogActV>),
    LogError,
> {
    match lookup(ms, key_message()) {
        Option::None => Ok((lines, Seq::empty())),
        Option::Some(mv) => match lookup(ms, key_replace()) {
            Option::Some(JsonV::Bool(true)) => match mv {
                JsonV::Str(raw) => Ok(
                    (erase_last(lines).push(raw), seq![LogActV::MoveUpPrint(raw)]),
                ),
                _ => Err(LogError::TextNotString),
            },
            Option::None | Option::Some(JsonV::Bool(false)) => match mv {
                JsonV::Str(raw) => Ok((lines.push(raw), seq![LogActV::Print(raw)])),
                _ => Err(LogError::TextNotString),
            },
            Option::Some(_) => Err(LogError::ReplaceNotBool),
        },
    }
}

/// The visible lines and effects of the `resource == "cursor"` member.
pub open spec fn sp_cursor_after(ms: Seq<(Seq<u8>, JsonV)>, lines: Seq<Seq<u8>>) -> Result<
    (Seq<Seq<u8>>, Seq<LogActV>),
    LogError,
> {
    match lookup(ms, key_resource()) {
        Option::None => Ok((lines, Seq::empty())),
        Option::Some(JsonV::Str(raw)) => if raw == word_cursor() {
            match lookup(ms, key_value()) {
                Option::None => Err(LogError::CursorValueMissing),
                Option::Some(JsonV::Str(vraw)) => if vraw == word_erase() {
                    Ok((erase_last(lines), seq![LogActV::EraseLine]))
                } else {
                    Ok((lines, Seq::empty()))
                },
                Option::Some(_) => Err(LogError::CursorValueNotString),
            }
        } else {
            Ok((lines, Seq::empty()))
        },
        Option::Some(_) => Err(LogError::ResourceNotString),
    }
}

/// The state after one control message, with the effects to render, or the
/// reason the message is rejected.  The flag is read first, then the text
/// members, then the cursor control, as the stream consumer does.
pub open spec fn sp_apply(success: bool, lines: Seq<Seq<u8>>, v: JsonV) -> Result<
    (bool, Seq<Seq<u8>>, Seq<LogActV>),
    LogError,
> {
    match v {
        JsonV::Obj(ms) => match sp_flag_after(ms, success) {
            Err(e) => Err(e),
            Ok(s2) => match sp_text_after(ms, lines) {
                Err(e) => Err(e),
                Ok((l2, a2)) => match sp_cursor_after(ms, l2) {
                    Err(e) => Err(e),
                    Ok((l3, a3)) => Ok((s2, l3, a2 + a3)),
                },
            },
        },
        _ => Err(LogError::NotObject),
    }
}

pub open spec fn lines_view(lines: Seq<Vec<u8>>) -> Seq<Seq<u8>> {
    Seq::new(lines.len(), |i: int| lines[i]@)
}

/// The running interpretation of a build-log stream: the verdict so far
/// and the visible log lines (raw string contents, in order).
pub struct BuildLog {
    success: bool,
    lines: Vec<Vec<u8>>,
}

/// Model of a [`BuildLog`].
#[verifier::ext_equal]
pub struct LogModel {
    pub success: bool,
    pub lines: Seq<Seq<u8>>,
}

impl View for BuildLog {
    type V = LogModel;

    closed spec fn view(&self) -> LogModel {
        LogModel { success: self.success, lines: lines_view(self.lines@) }
    }
}

/// Find the last binding of `key` among the members of an object.
pub fn find_member<'a>(ms: &'a Vec<(Vec<u8>, Json)>, key: &[u8]) -> (r: Option<&'a Json>)
    ensures
        match r {
            Some(j) => lookup(obj_view(ms@), key@) == Some(jview(*j)),
            None => lookup(obj_view(ms@), key@) is None,
        },
{
    proof {
        lemma_obj_view(ms@);
        assert(obj_view(ms@).take(ms@.len() as int) =~= obj_view(ms@));
    }
    let mut k = ms.len();
    while k > 0
        invariant
            k <= ms@.len(),
            obj_view(ms@).len() == ms@.len(),
            forall|i: int| 0 <= i < ms@.len() ==> obj_view(ms@)[i] == (ms@[i].0@, jview(
                ms@[i].1,
            )),
            lookup(obj_view(ms@), key@) == lookup(obj_view(ms@).take(k as int), key@),
        decreases k,
    {
        let hit = bytes_eq(&ms[k - 1].0, key);
        proof {
            assert(obj_view(ms@).take(k as int).last() == obj_view(ms@)[k - 1]);
            assert(obj_view(ms@).take(k as int).drop_last() =~= obj_view(ms@).take(k - 1));
        }
        if hit {
            return Some(&ms[k - 1].1);
        }
        k = k - 1;
    }
    proof {
        assert(obj_view(ms@).take(0) =~= Seq::<(Seq<u8>, JsonV)>::empty());
    }
    None
}

impl BuildLog {
    /// A fresh interpreter: verdict `false` (the default when the stream
    /// never reports one), no visible lines.
    pub fn new() -> (r: Self)
        ensures
            r@ == (LogModel { success: false, lines: Seq::<Seq<u8>>::empty() }),
    {
        let r = BuildLog { success: false, lines: Vec::new() };
        proof {
            assert(lines_view(Seq::<Vec<u8>>::empty()) =~= Seq::<Seq<u8>>::empty());
        }
        r
    }

    /// The verdict so far: the last `isSuccess` value seen, `false` if none.
    pub fn verdict(&self) -> (r: bool)
        ensures
            r == self@.success,
    {
        self.success
    }

    /// The visible log lines, oldest first, as raw string contents.
    pub fn visible_lines(&self) -> (r: &Vec<Vec<u8>>)
        ensures
            lines_view(r@) == self@.lines,
    {
        &self.lines
    }

    /// Interpret one decoded element of the build-log array, updating the
    /// verdict and the visible lines and returning the effects to render,
    /// exactly as [`sp_apply`] prescribes.  A rejected message leaves the
    /// state unchanged.
    pub fn apply(&mut self, v: &Json) -> (r: Result<Vec<LogAction>, LogError>)
        ensures
            match r {
                Ok(acts) => sp_apply(old(self)@.success, old(self)@.lines, jview(*v)) == Ok::<
                    (bool, Seq<Seq<u8>>, Seq<LogActV>),
                    LogError,
                >((final(self)@.success, final(self)@.lines, acts_view(acts@))),
                Err(e) => sp_apply(old(self)@.success, old(self)@.lines, jview(*v)) == Err::<
                    (bool, Seq<Seq<u8>>, Seq<LogActV>),
                    LogError,
                >(e) && final(self)@ == old(self)@,
            },
    {
        let ms = match v {
            Json::Obj(ms) => ms,
            _ => {
                return Err(LogError::NotObject);
            }
        };
        let k_success: [u8; 9] = [105, 115, 83, 117, 99, 99, 101, 115, 115];
        let k_message: [u8; 7] = [109, 101, 115, 115, 97, 103, 101];
        let k_replace: [u8; 7] = [114, 101, 112, 108, 97, 99, 101];
        let k_resource: [u8; 8] = [114, 101, 115, 111, 117, 114, 99, 101];
        let k_value: [u8; 5] = [118, 97, 108, 117, 101];
        let w_cursor: [u8; 6] = [99, 117, 114, 115, 111, 114];
        let w_erase: [u8; 5] = [101, 114, 97, 115, 101];
        proof {
            assert(k_success@ =~= key_is_success());
            assert(k_message@ =~= key_message());
            assert(k_replace@ =~= key_replace());
            assert(k_resource@ =~= key_resource());
            assert(k_value@ =~= key_value());
            assert(w_cursor@ =~= word_cursor());
            assert(w_erase@ =~= word_erase());
        }
        // Check every member first, so that a rejected message has no
        // effect at all; mutate only once all checks have passed.
        let new_success: bool = match find_member(ms, k_success.as_slice()) {
            None => self.success,
            Some(Json::Bool(b)) => *b,
            Some(other) => {
                proof {
                    lemma_jview_shape(*other);
                }
                return Err(LogError::FlagNotBool);
            }
        };
        let text_part: Option<(bool, &Vec<u8>)> = match find_member(ms, k_message.as_slice()) {
            None => None,
            Some(mv) => {
                let replace: bool = match find_member(ms, k_replace.as_slice()) {
                    None => false,
                    Some(Json::Bool(b)) => *b,
                    Some(other) => {
                        proof {
                            lemma_jview_shape(*other);
                        }
                        return Err(LogError::ReplaceNotBool);
                    }
                };
                match mv {
                    Json::Str(raw) => Some((replace, raw)),
                    _ => {
                        proof {
                            lemma_jview_shape(*mv);
                        }
                        return Err(LogError::TextNotString);
                    }
                }
            }
        };
        let erase: bool = match find_member(ms, k_resource.as_slice()) {
            None => false,
            Some(Json::Str(raw)) => {
                if bytes_eq(raw, w_cursor.as_slice()) {
                    match find_member(ms, k_value.as_slice()) {
                        None => {
                            return Err(LogError::CursorValueMissing);
                        }
                        Some(Json::Str(vraw)) => bytes_eq(vraw, w_erase.as_slice()),
                        Some(other) => {
                            proof {
                                lemma_jview_shape(*other);
                            }
                            return Err(LogError::CursorValueNotString);
                        }
                    }
                } else {
                    false
                }
            }
            Some(other) => {
                proof {
                    lemma_jview_shape(*other);
                }
                return Err(LogError::ResourceNotString);
            }
        };
        // All checks passed: commit.
        let ghost lines0 = lines_view(self.lines@);
        let mut acts: Vec<LogAction> = Vec::new();
        self.success = new_success;
        match text_part {
            None => {}
            Some((replace, raw)) => {
                let text = crate::json::copy_range(raw, 0, raw.len());
                proof {
                    assert(text@ =~= raw@);
                }
                if replace {
                    if self.lines.len() > 0 {
                        self.lines.pop();
                    }
                    proof {
                        assert(lines_view(self.lines@) =~= erase_last(lines0));
                    }
                    acts.push(LogAction::MoveUpPrint(crate::json::copy_range(
                        &text,
                        0,
                        text.len(),
                    )));
                    self.lines.push(text);
                    proof {
                        assert(lines_view(self.lines@) =~= erase_last(lines0).push(raw@));
                    }
                } else {
                    acts.push(LogAction::Print(crate::json::copy_range(&text, 0, text.len())));
                    self.lines.push(text);
                    proof {
                        assert(lines_view(self.lines@) =~= lines0.push(raw@));
                    }
                }
            }
        }
        let ghost lines1 = lines_view(self.lines@);
        let ghost acts1 = acts_view(acts@);
        if erase {
            if self.lines.len() > 0 {
                self.lines.pop();
            }
            acts.push(LogAction::EraseLine);
            proof {
                assert(lines_view(self.lines@) =~= erase_last(lines1));
                assert(acts_view(acts@) =~= acts1 + seq![LogActV::EraseLine]);
            }
        }
        proof {
            let msv = obj_view(ms@);
            match text_part {
                None => {
                    assert(sp_text_after(msv, lines0) == Ok::<_, LogError>(
                        (lines0, Seq::<LogActV>::empty()),
                    ));
                    assert(acts1 =~= Seq::<LogActV>::empty());
                }
                Some((replace, raw)) => {
                    if replace {
                        assert(acts1 =~= seq![LogActV::MoveUpPrint(raw@)]);
                    } else {
                        assert(acts1 =~= seq![LogActV::Print(raw@)]);
                    }
                }
            }
            if erase {
                assert(sp_cursor_after(msv, lines1) == Ok::<_, LogError>(
                    (erase_last(lines1), seq![LogActV::EraseLine]),
                ));
            } else {
                assert(sp_cursor_after(msv, lines1) == Ok::<_, LogError>(
                    (lines1, Seq::<LogActV>::empty()),
                ));
                assert(acts_view(acts@) =~= acts1 + Seq::<LogActV>::empty());
            }
            match sp_cursor_after(msv, lines1) {
                Ok((l3, a3)) => {
                    assert(lines_view(self.lines@) == l3);
                    assert(acts_view(acts@) == acts1 + a3);
                }
                Err(_) => {
                    assert(false);
                }
            }
        }
        Ok(acts)
    }
}

/// The state after a whole sequence of control messages, first to last;
/// the first rejected message aborts the run.
pub open spec fn sp_run(success: bool, lines: Seq<Seq<u8>>, msgs: Seq<JsonV>) -> Result<
    (bool, Seq<Seq<u8>>),
    LogError,
>
    decreases msgs.len(),
{
    if msgs.len() == 0 {
        Ok((success, lines))
    } else {
        match sp_apply(success, lines, msgs.first()) {
            Ok((s2, l2, _)) => sp_run(s2, l2, msgs.drop_first()),
            Err(e) => Err(e),
        }
    }
}

/// Whether a message carries an `isSuccess` member, and its value.
pub open spec fn flag_of(v: JsonV) -> Option<bool> {
    match v {
        JsonV::Obj(ms) => match lookup(ms, key_is_success()) {
            Option::Some(JsonV::Bool(b)) => Some(b),
            _ => None,
        },
        _ => None,
    }
}

proof fn lemma_no_flag_preserves(success: bool, lines: Seq<Seq<u8>>, msgs: Seq<JsonV>)
    requires
        forall|j: int| 0 <= j < msgs.len() ==> flag_of(msgs[j]) is None,
        sp_run(success, lines, msgs) is Ok,
    ensures
        sp_run(success, lines, msgs) matches Ok(r) ==> r.0 == success,
    decreases msgs.len(),
{
    if msgs.len() > 0 {
        assert(flag_of(msgs.first()) is None);
        match sp_apply(success, lines, msgs.first()) {
            Ok((s2, l2, _)) => {
                assert(s2 == success);
                assert(forall|j: int|
                    0 <= j < msgs.drop_first().len() ==> flag_of(msgs.drop_first()[j]) is None);
                lemma_no_flag_preserves(success, l2, msgs.drop_first());
            }
            Err(_) => {}
        }
    }
}

/// Verdict precedence: when a run of messages succeeds, the verdict is the
/// `isSuccess` value of the last message that carries one, whatever came
/// before it.
pub proof fn lemma_verdict_precedence(
    success: bool,
    lines: Seq<Seq<u8>>,
    msgs: Seq<JsonV>,
    k: int,
    b: bool,
)
    requires
        0 <= k < msgs.len(),
        flag_of(msgs[k]) == Some(b),
        forall|j: int| k < j < msgs.len() ==> flag_of(msgs[j]) is None,
        sp_run(success, lines, msgs) is Ok,
    ensures
        sp_run(success, lines, msgs) matches Ok(r) ==> r.0 == b,
    decreases msgs.len(),
{
    match sp_apply(success, lines, msgs.first()) {
        Ok((s2, l2, _)) => {
            if k == 0 {
                assert(s2 == b);
                assert(forall|j: int|
                    0 <= j < msgs.drop_first().len() ==> flag_of(msgs.drop_first()[j]) is None);
                lemma_no_flag_preserves(s2, l2, msgs.drop_first());
            } else {
                assert(msgs.drop_first()[k - 1] == msgs[k]);
                assert(forall|j: int|
                    k - 1 < j < msgs.drop_first().len() ==> flag_of(msgs.drop_first()[j])
                        is None);
                lemma_verdict_precedence(s2, l2, msgs.drop_first(), k - 1, b);
            }
        }
        Err(_) => {}
    }
}

/// A plain text line followed by a replacing one: the replacement erases
/// the first text, so the screen ends with the old lines plus only the
/// replacement.
pub proof fn lemma_replace_renders_last(
    success: bool,
    lines: Seq<Seq<u8>>,
    m1: JsonV,
    m2: JsonV,
    a: Seq<u8>,
    b: Seq<u8>,
)
    requires
        m1 matches JsonV::Obj(ms1) && lookup(ms1, key_message()) == Some(JsonV::Str(a)) && (lookup(
            ms1,
            key_replace(),
        ) is None || lookup(ms1, key_replace()) == Some(JsonV::Bool(false))) && lookup(
            ms1,
            key_resource(),
        ) is None && (lookup(ms1, key_is_success()) is None || flag_of(m1) is Some),
        m2 matches JsonV::Obj(ms2) && lookup(ms2, key_message()) == Some(JsonV::Str(b)) && lookup(
            ms2,
            key_replace(),
        ) == Some(JsonV::Bool(true)) && lookup(ms2, key_resource()) is None && (lookup(
            ms2,
            key_is_success(),
        ) is None || flag_of(m2) is Some),
    ensures
        sp_run(success, lines, seq![m1, m2]) matches Ok(r) && r.1 == lines.push(b),
{
    let msgs = seq![m1, m2];
    assert(msgs.first() == m1);
    assert(msgs.drop_first() =~= seq![m2]);
    match sp_apply(success, lines, m1) {
        Ok((s2, l2, _)) => {
            assert(l2 == lines.push(a));
            assert(seq![m2].first() == m2);
            match sp_apply(s2, l2, m2) {
                Ok((s3, l3, _)) => {
                    assert(erase_last(lines.push(a)) =~= lines);
                    assert(l3 == lines.push(b));
                    assert(seq![m2].drop_first() =~= Seq::<JsonV>::empty());
                    assert(sp_run(s3, l3, seq![m2].drop_first()) == Ok::<(bool, Seq<Seq<u8>>), LogError>(
                        (s3, l3),
                    ));
                    assert(sp_run(s2, l2, seq![m2]) == Ok::<(bool, Seq<Seq<u8>>), LogError>(
                        (s3, l3),
                    ));
                }
                Err(_) => {
                    assert(false);
                }
            }
        }
        Err(_) => {
            assert(false);
        }
    }
}

} // verus!
