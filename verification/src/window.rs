use vstd::prelude::*;

verus! {

/// The title of the editor window: `mslicer - <stem>` for a project saved
/// under a file whose name without extension is `stem`, and `mslicer` for a
/// project that has no file name yet.
pub fn window_title(stem: Option<&str>) -> (title: String)
    ensures
        title@ == (match stem {
            Some(s) => "mslicer - "@ + s@,
            None => "mslicer"@,
        }),
{
    match stem {
        Some(s) => {
            let mut title = String::from_str("mslicer - ");
            title.append(s);
            title
        },
        None => String::from_str("mslicer"),
    }
}

} // verus!
