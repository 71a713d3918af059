use crate::pack::backpack::BackPack;
use crate::pack::image::lemma_has_name;
use crate::pack::image::lemma_survivors;
use crate::pack::image::survivors;
use crate::pack::laws::starts_with;
use crate::pack::names::Entry;
use crate::pack::names::has_name;
use crate::pack::names::lemma_position;
use crate::pack::names::lemma_position_unique;
use crate::pack::names::lemma_put;
use crate::pack::names::lookup;
use crate::pack::names::position;
use crate::pack::reader::read_archive;
use vstd::prelude::*;

verus! {

/// The files of a backpack as a lookup shows them: every name that is
/// found, with the bytes of its file.
pub type Files = Map<Seq<char>, Seq<u8>>;

/// One step in the life of a backpack, as mathematics.
pub enum Step {
    /// A file is added under a name that is not scheduled for removal.
    Add { name: Seq<char>, bytes: Seq<u8> },
    /// A file that a lookup finds is removed.
    Remove { name: Seq<char> },
    /// The backpack is flushed.
    Flush,
    /// The backpack is closed, and opened again from a stream that starts
    /// with what the close wrote.
    Reopen { stream: Seq<u8> },
}

/// What a step does to the files: an addition puts the bytes under the
/// name, a removal takes the name away, and flushing and reopening change
/// nothing.
pub open spec fn step_files(files: Files, step: Step) -> Files {
    match step {
        Step::Add { name, bytes } => files.insert(name, bytes),
        Step::Remove { name } => files.remove(name),
        Step::Flush => files,
        Step::Reopen { .. } => files,
    }
}

/// What steps, one after another, do to the files.
pub open spec fn run_files(files: Files, steps: Seq<Step>) -> Files
    decreases steps.len(),
{
    if steps.len() == 0 {
        files
    } else {
        step_files(run_files(files, steps.drop_last()), steps.last())
    }
}

/// True when `post` is what the step makes of `pre`, as `add_file`,
/// `remove_file`, `flush`, and `close` followed by `open` say of their
/// results.
pub open spec fn follows(pre: BackPack, step: Step, post: BackPack) -> bool {
    &&& post.wf()
    &&& match step {
        Step::Add { name, bytes } => !pre.removed().contains(name) && post.added(
            &pre,
            Entry { name, offset: pre.next_key() as u64, length: bytes.len() as u64 },
            bytes,
        ),
        Step::Remove { name } => pre.visible(name) && post.names() == pre.names()
            && post.buffers() == pre.buffers() && post.removed() == pre.removed().insert(name),
        Step::Flush => post.names() == survivors(pre.names(), pre.removed()) && post.removed()
            == Set::<Seq<char>>::empty() && post.buffers() == pre.buffers(),
        Step::Reopen { stream } => {
            &&& pre.flush_fits()
            &&& starts_with(stream, pre.flush_image())
            &&& read_archive(stream) matches Ok(a)
            &&& post.names() == a.names
            &&& post.buffers() == a.buffers
            &&& post.removed() == Set::<Seq<char>>::empty()
        },
    }
}

/// An addition puts the bytes under the name and leaves every other file as
/// it was; where the name is scheduled for removal, the files stay as they
/// are, the new entry hidden.
pub proof fn lemma_added_files(pre: BackPack, post: BackPack, entry: Entry, bytes: Seq<u8>)
    requires
        pre.wf(),
        post.added(&pre, entry, bytes),
    ensures
        post.files() == if pre.removed().contains(entry.name) {
            pre.files()
        } else {
            pre.files().insert(entry.name, bytes)
        },
{
    lemma_put(pre.names(), entry);
    let after = if pre.removed().contains(entry.name) {
        pre.files()
    } else {
        pre.files().insert(entry.name, bytes)
    };
    assert forall|n: Seq<char>| post.files().contains_key(n) == after.contains_key(n) by {
    }
    assert forall|n: Seq<char>| post.files().contains_key(n) implies post.files()[n] == after[n] by {
        if n != entry.name {
            lemma_position(pre.names(), n);
            lemma_position(post.names(), n);
            assert(lookup(post.names(), n) == lookup(pre.names(), n));
            assert(has_name(pre.names(), n));
            pre.lemma_names_have_buffers(n);
            assert(post.key(n) == pre.key(n));
        }
    }
    assert(post.files() =~= after);
}

/// A removal takes the name away and leaves every other file as it was.
pub proof fn lemma_removed_files(pre: BackPack, post: BackPack, name: Seq<char>)
    requires
        post.names() == pre.names(),
        post.buffers() == pre.buffers(),
        post.removed() == pre.removed().insert(name),
    ensures
        post.files() == pre.files().remove(name),
{
    assert(post.files() =~= pre.files().remove(name));
}

/// A flush leaves the files as they are.
pub proof fn lemma_flushed_files(pre: BackPack, post: BackPack)
    requires
        pre.wf(),
        post.names() == survivors(pre.names(), pre.removed()),
        post.removed() == Set::<Seq<char>>::empty(),
        post.buffers() == pre.buffers(),
    ensures
        post.files() == pre.files(),
{
    let names = pre.names();
    let kept = post.names();
    lemma_survivors(names, pre.removed());
    assert forall|n: Seq<char>| post.visible(n) == pre.visible(n) by {
        lemma_has_name(names, n);
        lemma_has_name(kept, n);
        if has_name(kept, n) {
            let j = choose|j: int| 0 <= j < kept.len() && (#[trigger] kept[j]).name == n;
            let k = choose|k: int| 0 <= k < names.len() && names[k] == kept[j];
            assert(names[k].name == n);
        }
        if pre.visible(n) {
            let k = choose|k: int| 0 <= k < names.len() && (#[trigger] names[k]).name == n;
            let j = choose|j: int| 0 <= j < kept.len() && kept[j] == names[k];
            assert(kept[j].name == n);
        }
    }
    assert forall|n: Seq<char>| post.visible(n) implies post.content(n) == pre.content(n) by {
        lemma_position(names, n);
        lemma_position(kept, n);
        let j = position(kept, n);
        let k = choose|k: int| 0 <= k < names.len() && names[k] == kept[j];
        lemma_position_unique(names, k);
    }
    assert(post.files() =~= pre.files());
}

/// Closing and opening again leaves the files as they are.
pub proof fn lemma_reopened_files(pre: BackPack, post: BackPack, stream: Seq<u8>)
    requires
        pre.wf(),
        pre.flush_fits(),
        starts_with(stream, pre.flush_image()),
        read_archive(stream) matches Ok(a) && post.names() == a.names && post.buffers()
            == a.buffers && post.removed() == Set::<Seq<char>>::empty(),
    ensures
        post.files() == pre.files(),
{
    pre.lemma_flush_reopen(stream);
    assert forall|n: Seq<char>| post.visible(n) == pre.visible(n) by {
    }
    assert forall|n: Seq<char>| post.visible(n) implies post.content(n) == pre.content(n) by {
        assert(pre.visible(n));
    }
    assert(post.files() =~= pre.files());
}

/// The law over sequences. Whatever steps a backpack goes through, one
/// after another, a lookup finds in the end exactly the files that the steps
/// make of the files at the start: those added and not removed since, each
/// with the bytes last added under its name.
pub proof fn lemma_sequence(states: Seq<BackPack>, steps: Seq<Step>)
    requires
        states.len() == steps.len() + 1,
        states[0].wf(),
        forall|i: int| 0 <= i < steps.len() ==> follows(states[i], #[trigger] steps[i], states[i + 1]),
    ensures
        states.last().files() == run_files(states[0].files(), steps),
        states.last().wf(),
    decreases steps.len(),
{
    if steps.len() > 0 {
        let n = steps.len() as int;
        let before = states.drop_last();
        let earlier = steps.drop_last();
        assert forall|i: int| 0 <= i < earlier.len() implies follows(
            before[i],
            #[trigger] earlier[i],
            before[i + 1],
        ) by {
            assert(follows(states[i], steps[i], states[i + 1]));
        }
        lemma_sequence(before, earlier);
        let pre = states[n - 1];
        let post = states[n];
        assert(before.last() == pre);
        assert(follows(pre, steps[n - 1], post));
        match steps[n - 1] {
            Step::Add { name, bytes } => {
                lemma_added_files(
                    pre,
                    post,
                    Entry { name, offset: pre.next_key() as u64, length: bytes.len() as u64 },
                    bytes,
                );
            },
            Step::Remove { name } => {
                lemma_removed_files(pre, post, name);
            },
            Step::Flush => {
                lemma_flushed_files(pre, post);
            },
            Step::Reopen { stream } => {
                lemma_reopened_files(pre, post, stream);
            },
        }
    }
}

} // verus!
