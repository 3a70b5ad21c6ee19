//! The container tool's command lines, and the classification of its
//! answers about images and manifests. The calls themselves are made by
//! the program around this library; the argument lists and the reading
//! of the results are verified here.

use vstd::prelude::*;
use crate::verbose::Verbosity;
use crate::cmd::{cmd_call_to_string, cmd_line};
use crate::engine::{LocalCheck, RemoteCheck};
use crate::slug::{lower_of, lowercase_str};
use crate::text::{contains_sub, chars_of, contains_sub_exec};
use crate::strsort::strs_v;

verus! {

/// The container tool: which binary to call and how talkative to be.
pub struct DockerCommand {
    pub docker_bin: String,
    pub verbosity: Verbosity,
}

/// `-f <name>` pairs for a list of files.
pub open spec fn file_args(filenames: Seq<Seq<char>>) -> Seq<Seq<char>>
    decreases filenames,
{
    if filenames.len() == 0 {
        Seq::empty()
    } else {
        seq!["-f"@, filenames[0]] + file_args(filenames.drop_first())
    }
}

/// The flags of the `config` subcommand.
pub open spec fn config_flags(
    no_consistency: bool,
    no_interpolate: bool,
    no_normalize: bool,
) -> Seq<Seq<char>> {
    (if no_consistency {
        seq!["--no-consistency"@]
    } else {
        Seq::<Seq<char>>::empty()
    }) + (if no_interpolate {
        seq!["--no-interpolate"@]
    } else {
        Seq::<Seq<char>>::empty()
    }) + (if no_normalize {
        seq!["--no-normalize"@]
    } else {
        Seq::<Seq<char>>::empty()
    })
}

/// The whole argument list of `compose ... config ...`.
pub open spec fn compose_config_args_v(
    filenames: Seq<Seq<char>>,
    no_consistency: bool,
    no_interpolate: bool,
    no_normalize: bool,
) -> Seq<Seq<char>> {
    seq!["compose"@] + file_args(filenames) + seq!["config"@] + config_flags(
        no_consistency,
        no_interpolate,
        no_normalize,
    )
}

impl DockerCommand {
    /// A docker command with the given binary name.
    pub fn with_bin(docker_bin: String, verbosity: Verbosity) -> (r: DockerCommand)
        ensures
            r.docker_bin == docker_bin,
            r.verbosity == verbosity,
    {
        DockerCommand { docker_bin, verbosity }
    }

    /// The string a call with these arguments would show as.
    pub fn call_to_string(&self, args: &Vec<String>) -> (r: String)
        ensures
            r@ == cmd_line(self.docker_bin@, strs_v(args@)),
    {
        cmd_call_to_string(self.docker_bin.as_str(), args)
    }

    /// The argument list that renders the configuration canonically.
    pub fn compose_config_args(
        &self,
        filenames: &Vec<String>,
        no_consistency: bool,
        no_interpolate: bool,
        no_normalize: bool,
    ) -> (r: Vec<String>)
        ensures
            strs_v(r@) == compose_config_args_v(
                strs_v(filenames@),
                no_consistency,
                no_interpolate,
                no_normalize,
            ),
    {
        let ghost fvs = strs_v(filenames@);
        let mut r: Vec<String> = Vec::new();
        r.push(String::from_str("compose"));
        proof {
            assert(strs_v(r@) =~= seq!["compose"@]);
            assert(fvs.subrange(0, fvs.len() as int) =~= fvs);
        }
        let mut i: usize = 0;
        while i < filenames.len()
            invariant
                0 <= i <= filenames@.len(),
                fvs == strs_v(filenames@),
                fvs.len() == filenames@.len(),
                strs_v(r@) + file_args(fvs.subrange(i as int, fvs.len() as int)) == seq![
                    "compose"@,
                ] + file_args(fvs),
            decreases filenames@.len() - i,
        {
            proof {
                let suf = fvs.subrange(i as int, fvs.len() as int);
                assert(suf[0] == fvs[i as int]);
                assert(suf.drop_first() =~= fvs.subrange(i + 1, fvs.len() as int));
                assert(fvs[i as int] == filenames@[i as int]@);
            }
            let ghost pre = strs_v(r@);
            r.push(String::from_str("-f"));
            r.push(filenames[i].clone());
            proof {
                assert(strs_v(r@) =~= pre + seq!["-f"@, fvs[i as int]]);
                assert(strs_v(r@) + file_args(fvs.subrange(i + 1, fvs.len() as int))
                    =~= seq!["compose"@] + file_args(fvs));
            }
            i = i + 1;
        }
        proof {
            assert(file_args(fvs.subrange(i as int, fvs.len() as int)) =~= Seq::<
                Seq<char>,
            >::empty());
            assert(strs_v(r@) =~= seq!["compose"@] + file_args(fvs));
        }
        let ghost mid = strs_v(r@);
        r.push(String::from_str("config"));
        proof {
            assert(strs_v(r@) =~= mid + seq!["config"@]);
        }
        let ghost mid2 = strs_v(r@);
        let ghost flags = config_flags(no_consistency, no_interpolate, no_normalize);
        if no_consistency {
            r.push(String::from_str("--no-consistency"));
        }
        if no_interpolate {
            r.push(String::from_str("--no-interpolate"));
        }
        if no_normalize {
            r.push(String::from_str("--no-normalize"));
        }
        proof {
            assert(strs_v(r@) =~= mid2 + flags);
            assert(strs_v(r@) =~= compose_config_args_v(
                fvs,
                no_consistency,
                no_interpolate,
                no_normalize,
            ));
        }
        r
    }

    /// The argument list that asks the remote registry for a manifest.
    pub fn manifest_inspect_args(&self, image: &String) -> (r: Vec<String>)
        ensures
            strs_v(r@) == seq!["manifest"@, "inspect"@, "--insecure"@, image@],
    {
        let mut r: Vec<String> = Vec::new();
        r.push(String::from_str("manifest"));
        r.push(String::from_str("inspect"));
        r.push(String::from_str("--insecure"));
        r.push(image.clone());
        proof {
            assert(strs_v(r@) =~= seq!["manifest"@, "inspect"@, "--insecure"@, image@]);
        }
        r
    }

    /// The argument list that asks the local registry for an image.
    pub fn image_inspect_args(&self, image: &String) -> (r: Vec<String>)
        ensures
            strs_v(r@) == seq!["image"@, "inspect"@, image@],
    {
        let mut r: Vec<String> = Vec::new();
        r.push(String::from_str("image"));
        r.push(String::from_str("inspect"));
        r.push(image.clone());
        proof {
            assert(strs_v(r@) =~= seq!["image"@, "inspect"@, image@]);
        }
        r
    }
}

/// Reads a local `image inspect` result: success means the image exists;
/// a complaint about a missing image means it does not; anything else is
/// an error carried verbatim.
pub fn classify_local_probe(success: bool, stderr: &str) -> (r: LocalCheck)
    ensures
        success ==> r == LocalCheck::Found,
        !success && contains_sub(lower_of(stderr@), "no such image"@) ==> r
            == LocalCheck::NotFound,
        !success && !contains_sub(lower_of(stderr@), "no such image"@) ==> (r matches
        LocalCheck::Error(m) && m@ == stderr@),
{
    if success {
        return LocalCheck::Found;
    }
    let lowered = lowercase_str(stderr);
    let lcs = chars_of(lowered.as_str());
    let pat = chars_of("no such image");
    if contains_sub_exec(&lcs, &pat) {
        LocalCheck::NotFound
    } else {
        LocalCheck::Error(stderr.to_owned())
    }
}

/// Reads a remote `manifest inspect` result: success means the manifest
/// exists; a complaint about a missing manifest means it does not; an
/// authorization complaint is its own case; anything else is an error
/// carried verbatim.
pub fn classify_remote_probe(success: bool, stderr: &str) -> (r: RemoteCheck)
    ensures
        success ==> r == RemoteCheck::Found,
        !success && contains_sub(lower_of(stderr@), "no such manifest"@) ==> r
            == RemoteCheck::NotFound,
        !success && !contains_sub(lower_of(stderr@), "no such manifest"@) && contains_sub(
            stderr@,
            "unauthorized:"@,
        ) ==> (r matches RemoteCheck::Unauthorized(m) && m@ == stderr@),
        !success && !contains_sub(lower_of(stderr@), "no such manifest"@) && !contains_sub(
            stderr@,
            "unauthorized:"@,
        ) ==> (r matches RemoteCheck::Error(m) && m@ == stderr@),
{
    if success {
        return RemoteCheck::Found;
    }
    let lowered = lowercase_str(stderr);
    let lcs = chars_of(lowered.as_str());
    let pat = chars_of("no such manifest");
    if contains_sub_exec(&lcs, &pat) {
        return RemoteCheck::NotFound;
    }
    let raw = chars_of(stderr);
    let unauth = chars_of("unauthorized:");
    if contains_sub_exec(&raw, &unauth) {
        RemoteCheck::Unauthorized(stderr.to_owned())
    } else {
        RemoteCheck::Error(stderr.to_owned())
    }
}

} // verus!
