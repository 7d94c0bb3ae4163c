# nuci

Declarative OpenWrt configuration: compiles a JSON description of a router into UCI commands,
previews what a deployment would change, and deploys over SSH with a rollback safety net.

The library is written in Verus: every function carries a contract, and the contracts are proved.

| Where             | What                                                                       |
| ----------------- | -------------------------------------------------------------------------- |
| `src/config/`     | the configuration, its rules, the keys of UCI sections and options         |
| `src/compile/`    | UCI commands, packages, secrets, and the compiler that puts them together  |
| `src/target/`     | what a target holds, the preview, the deployment script, the deployment    |
| `src/utils/`      | texts, their order, maps of them, paths, quoting, here-documents, errors   |
| `app/`            | the program: arguments, files, `sops`, `ssh`, printing                     |
| `tests/`          | scenarios, and what the contracts take from other crates                   |

What is proved of the library as a whole stands in public proof functions next to the functions
they are about, among them:

- `compile::convergence`: whatever a configuration file held, and whatever is declared, a deployment
  leaves what the declaration does not speak of, and behind that the same sections every time;
  deploying again changes nothing. These are exactly the declared sections and options if an entry's
  position in its list of sections is its index among the declared sections of its type, as it is
  where the entries of a list are of one type that nothing else in the file uses.
- `target::idempotence`: a target that was deployed to is recognised as up to date. This asks the
  same of lists, that no value holds a line feed or is the empty text, and that the configuration
  files hold nothing besides what is declared.
- `target::values`: reading a shown value gives back what was written; the order of a list makes no
  difference, and nothing else goes unnoticed, as long as no item holds the control character that
  stands between items.
- `compile::secrets`: a placeholder gives way to its secret; a configuration is refused if and only
  if an option or a feed asks for a secret that there is not.
- `compile::secret_files`: a directory gives exactly the members of its documents, and is refused if
  and only if a document is no JSON or two of them disagree.
- `compile::packages`: feeds are written before anything is installed, and removals come before
  installs.
- `target::script`: whoever deploys is not locked out; settings are saved before they are changed;
  declared sections are never deleted as leftovers; text files and the root password arrive as they
  are, unless a line of theirs is the word that ends them.
- `target::deploy`: the script runs at most once, the backup outlives every doubt, an unreachable
  target is given up after a bounded number of attempts.

What is taken on trust is marked `external_body` or `assume_specification`, with a comment that
says what is claimed: `indexmap`'s maps, `serde_json`'s parser, and a few functions of the standard
library.
